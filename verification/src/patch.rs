//! The patch engine: relocates string storage into freshly grown section
//! space, rewrites every referencing instruction's operand, and produces
//! a byte-for-byte consistent patched image.

use vstd::prelude::*;
use vstd::bytes::spec_u32_to_le_bytes;
use crate::binary::{round_up, lemma_round_up, write_u32_at};
use crate::executable::Executable;
use crate::headers::{PEHeaderWindows, PESectionHeader, spec_coff_bytes, spec_opt_bytes, spec_win_bytes,
    spec_section_bytes, push_coff_bytes, push_opt_bytes, push_win_bytes, push_section_bytes,
    SZ_COFF, SZ_OPT, SZ_WIN, SZ_SECTION};
use crate::executable::SZ_HEADERS;
use crate::strtable::{StringRef, StringTable, StringRefV, table_view};

verus! {

/// The staging buffer for relocated string storage is kept in an outside
/// growable byte buffer.
#[verifier::external_type_specification]
#[verifier::external_body]
pub struct ExByteBuffer(bytebuffer::ByteBuffer);

/// The bytes an outside byte buffer holds.
pub uninterp spec fn buffer_bytes(b: &bytebuffer::ByteBuffer) -> Seq<u8>;

/// Whether the buffer's write cursor sits at its end with no partial bit
/// write pending, so that writes append.
pub uninterp spec fn buffer_append_ready(b: &bytebuffer::ByteBuffer) -> bool;

/// Relies on bytebuffer's `ByteBuffer::new`: a fresh buffer is empty with
/// both cursors at zero.
#[verifier::external_body]
pub fn buffer_new() -> (b: bytebuffer::ByteBuffer)
    ensures
        buffer_bytes(&b) == Seq::<u8>::empty(),
        buffer_append_ready(&b),
{
    bytebuffer::ByteBuffer::new()
}

/// Relies on bytebuffer's `ByteBuffer::write_u8`: with the write cursor
/// at the end, one byte is appended.
#[verifier::external_body]
pub fn buffer_write_u8(b: &mut bytebuffer::ByteBuffer, v: u8)
    requires buffer_append_ready(old(b)),
    ensures
        buffer_bytes(final(b)) == buffer_bytes(old(b)).push(v),
        buffer_append_ready(final(b)),
{
    b.write_u8(v);
}

/// Relies on bytebuffer's `ByteBuffer::write_bytes`: with the write
/// cursor at the end, the bytes are appended.
#[verifier::external_body]
pub fn buffer_write_bytes(b: &mut bytebuffer::ByteBuffer, s: &[u8])
    requires buffer_append_ready(old(b)),
    ensures
        buffer_bytes(final(b)) == buffer_bytes(old(b)) + s@,
        buffer_append_ready(final(b)),
{
    b.write_bytes(s);
}

/// Relies on bytebuffer's `ByteBuffer::into_vec`: returns the buffer's
/// raw bytes.
#[verifier::external_body]
pub fn buffer_into_vec(b: bytebuffer::ByteBuffer) -> (r: Vec<u8>)
    ensures r@ == buffer_bytes(&b),
{
    b.into_vec()
}

/// `n` zero bytes.
pub open spec fn zeros(n: int) -> Seq<u8> {
    Seq::new(n as nat, |i: int| 0u8)
}

/// The staged size of one string: its bytes, one NUL, zero-padded to a
/// multiple of four.
pub open spec fn block_len(text: Seq<u8>) -> int {
    round_up(text.len() as int + 1, 4)
}

/// The staged bytes of one string.
pub open spec fn padded_block(text: Seq<u8>) -> Seq<u8> {
    text + seq![0u8] + zeros(block_len(text) - text.len() - 1)
}

/// Total staged size of the first `k` records.
pub open spec fn reloc_total(tv: Seq<StringRefV>, k: int) -> int
    decreases k,
        when k <= tv.len()
{
    if k <= 0 { 0 } else { reloc_total(tv, k - 1) + block_len(tv[k - 1].text) }
}

/// Staged bytes of the first `k` records, in table order.
pub open spec fn staging_prefix(tv: Seq<StringRefV>, k: int) -> Seq<u8>
    decreases k,
        when k <= tv.len()
{
    if k <= 0 {
        Seq::empty()
    } else {
        staging_prefix(tv, k - 1) + padded_block(tv[k - 1].text)
    }
}

/// Staged sizes are the staged bytes' lengths, and they never shrink.
pub proof fn lemma_reloc_total(tv: Seq<StringRefV>, k: int)
    requires 0 <= k <= tv.len(),
    ensures
        staging_prefix(tv, k).len() == reloc_total(tv, k),
        reloc_total(tv, k) <= reloc_total(tv, tv.len() as int),
        k > 0 ==> reloc_total(tv, k - 1) <= reloc_total(tv, k),
        reloc_total(tv, k) >= 0,
    decreases tv.len() - k,
{
    lemma_reloc_total_nonneg(tv, k);
    if k > 0 {
        lemma_round_up((tv[k - 1].text.len() + 1) as int, 4);
        lemma_reloc_total_nonneg(tv, k - 1);
        lemma_reloc_total_len(tv, k);
    } else {
        lemma_reloc_total_len(tv, k);
    }
    lemma_reloc_total_mono(tv, k, tv.len() as int);
}

proof fn lemma_reloc_total_nonneg(tv: Seq<StringRefV>, k: int)
    requires k <= tv.len(),
    ensures reloc_total(tv, k) >= 0,
    decreases k,
{
    if k > 0 {
        lemma_reloc_total_nonneg(tv, k - 1);
        lemma_round_up((tv[k - 1].text.len() + 1) as int, 4);
    }
}

proof fn lemma_reloc_total_len(tv: Seq<StringRefV>, k: int)
    requires 0 <= k <= tv.len(),
    ensures staging_prefix(tv, k).len() == reloc_total(tv, k),
    decreases k,
{
    if k > 0 {
        lemma_reloc_total_len(tv, k - 1);
        lemma_round_up((tv[k - 1].text.len() + 1) as int, 4);
    }
}

proof fn lemma_reloc_total_mono(tv: Seq<StringRefV>, a: int, b: int)
    requires 0 <= a <= b <= tv.len(),
    ensures reloc_total(tv, a) <= reloc_total(tv, b),
    decreases b - a,
{
    if a < b {
        lemma_reloc_total_mono(tv, a, b - 1);
        lemma_round_up((tv[b - 1].text.len() + 1) as int, 4);
    }
}

/// Index of the section with the highest physical address, the last such
/// one when several share it.
pub open spec fn last_max_idx(s: Seq<PESectionHeader>) -> int
    decreases s.len(),
{
    if s.len() <= 1 {
        0
    } else {
        let t = last_max_idx(s.drop_last());
        if s.last().addr_physical >= s[t].addr_physical { s.len() - 1 } else { t }
    }
}

proof fn lemma_last_max_idx_bound(s: Seq<PESectionHeader>)
    requires s.len() > 0,
    ensures 0 <= last_max_idx(s) < s.len(),
    decreases s.len(),
{
    if s.len() > 1 {
        lemma_last_max_idx_bound(s.drop_last());
    }
}

/// Find the last section: the record with the maximum physical address.
pub fn find_last_section(sections: &Vec<PESectionHeader>) -> (r: usize)
    requires sections@.len() > 0,
    ensures r == last_max_idx(sections@), r < sections@.len(),
{
    proof {
        lemma_last_max_idx_bound(sections@);
    }
    let mut m: usize = 0;
    let mut i: usize = 1;
    proof {
        assert(sections@.subrange(0, 1).len() == 1);
        assert(last_max_idx(sections@.subrange(0, 1)) == 0);
    }
    while i < sections.len()
        invariant
            1 <= i <= sections@.len(),
            m < i,
            m == last_max_idx(sections@.subrange(0, i as int)),
        decreases sections@.len() - i,
    {
        let ghost pre = sections@.subrange(0, i + 1);
        proof {
            lemma_last_max_idx_bound(sections@.subrange(0, i as int));
            assert(pre.drop_last() =~= sections@.subrange(0, i as int));
            assert(pre.last() == sections@[i as int]);
            assert(pre[last_max_idx(pre.drop_last())]
                == sections@.subrange(0, i as int)[last_max_idx(pre.drop_last())]);
        }
        if sections[i].addr_physical >= sections[m].addr_physical {
            m = i;
        }
        i = i + 1;
    }
    proof {
        assert(sections@.subrange(0, sections@.len() as int) =~= sections@);
    }
    m
}

/// Splice `src` into `out` at `off`, leaving all other bytes unchanged.
pub fn write_bytes_at(out: &mut Vec<u8>, off: usize, src: &Vec<u8>)
    requires off + src@.len() <= old(out)@.len(),
    ensures
        final(out)@.len() == old(out)@.len(),
        final(out)@.subrange(off as int, off + src@.len()) == src@,
        forall|i: int| 0 <= i < final(out)@.len() && !(off <= i < off + src@.len())
            ==> final(out)@[i] == old(out)@[i],
{
    let n = out.len();
    let m = src.len();
    let mut i: usize = 0;
    while i < m
        invariant
            i <= m == src@.len(),
            off + m <= n == out@.len(),
            forall|j: int| 0 <= j < i ==> out@[off + j] == src@[j],
            forall|j: int| 0 <= j < out@.len() && !(off <= j < off + i)
                ==> out@[j] == old(out)@[j],
        decreases m - i,
    {
        out.set(off + i, src[i]);
        i = i + 1;
    }
    proof {
        assert(out@.subrange(off as int, off + src@.len()) =~= src@);
    }
}

/// The last section of the image.
pub open spec fn spec_last(exe: Executable) -> PESectionHeader {
    exe.sections@[last_max_idx(exe.sections@)]
}

/// Virtual address where relocated string storage begins.
pub open spec fn spec_base_virt(exe: Executable) -> int {
    exe.pe_header_win.addr_base_image + spec_last(exe).addr_virtual
        + spec_last(exe).sz_physical
}

/// Physical address where relocated string storage begins.
pub open spec fn spec_base_phys(exe: Executable) -> int {
    spec_last(exe).addr_physical + spec_last(exe).sz_physical
}

/// The larger of the two alignment values.
pub open spec fn spec_align_max(exe: Executable) -> int {
    if exe.pe_header_win.align_sector >= exe.pe_header_win.align_file {
        exe.pe_header_win.align_sector as int
    } else {
        exe.pe_header_win.align_file as int
    }
}

/// The last section's new size: its old physical size plus all staged
/// string storage, rounded up to the alignment.
pub open spec fn spec_new_sz(exe: Executable, tv: Seq<StringRefV>) -> int {
    round_up(spec_last(exe).sz_physical + reloc_total(tv, tv.len() as int),
        spec_align_max(exe))
}

/// The recomputed image-size field: grown by the section's growth over
/// its old virtual size, then rounded up to a multiple of the file
/// alignment if not already one.
pub open spec fn spec_img_new(exe: Executable, tv: Seq<StringRefV>) -> int {
    let img0 = exe.pe_header_win.sz_image
        + (spec_new_sz(exe, tv) - spec_last(exe).sz_virtual);
    let af = exe.pe_header_win.align_file as int;
    if img0 % af > 0 { (img0 / af + 1) * af } else { img0 }
}

/// The new virtual address assigned to record `k`.
pub open spec fn spec_new_virt(exe: Executable, tv: Seq<StringRefV>, k: int) -> int {
    spec_base_virt(exe) + reloc_total(tv, k)
}

/// Whether byte position `i` falls inside some operand-rewrite window.
pub open spec fn in_xref_range(tv: Seq<StringRefV>, i: int) -> bool {
    exists|k: int, a: int| 0 <= k < tv.len() && 0 <= a < tv[k].xrefs.len()
        && #[trigger] tv[k].xrefs[a] + 1 <= i < tv[k].xrefs[a] + 5
}

/// Everything the patch engine asks of its input: positive alignments, no
/// 32-bit overflow in any address or size it computes, header and section
/// table inside the file, and operand-rewrite windows inside the file,
/// pairwise separated, and clear of the header records.
pub open spec fn patch_pre(exe: Executable, tv: Seq<StringRefV>, ilen: int) -> bool {
    let total = reloc_total(tv, tv.len() as int);
    let hdr_off = exe.offset_pe_header as int;
    let sect_off = exe.offset_section_table as int;
    let sect_end = sect_off + exe.sections@.len() * SZ_SECTION;
    &&& exe.sections@.len() > 0
    &&& spec_align_max(exe) > 0
    &&& exe.pe_header_win.align_file > 0
    &&& spec_base_virt(exe) + total <= u32::MAX
    &&& spec_base_phys(exe) + total <= u32::MAX
    &&& spec_new_sz(exe, tv) <= u32::MAX
    &&& spec_new_sz(exe, tv) >= spec_last(exe).sz_virtual
    &&& exe.pe_header_win.sz_image + (spec_new_sz(exe, tv) - spec_last(exe).sz_virtual)
        <= u32::MAX
    &&& spec_img_new(exe, tv) <= u32::MAX
    &&& hdr_off + SZ_HEADERS <= ilen
    &&& sect_end <= ilen
    &&& sect_off >= 0
    &&& hdr_off + SZ_HEADERS <= sect_off || sect_end <= hdr_off
    &&& forall|k: int, a: int| 0 <= k < tv.len() && 0 <= a < tv[k].xrefs.len() ==> {
        let x = #[trigger] tv[k].xrefs[a] as int;
        &&& x + 5 <= ilen
        &&& (x + 5 <= hdr_off || hdr_off + SZ_HEADERS <= x + 1)
        &&& (x + 5 <= sect_off || sect_end <= x + 1)
    }
    &&& forall|k1: int, a1: int, k2: int, a2: int|
        0 <= k1 < tv.len() && 0 <= a1 < tv[k1].xrefs.len()
        && 0 <= k2 < tv.len() && 0 <= a2 < tv[k2].xrefs.len()
        && !(k1 == k2 && a1 == a2)
        ==> {
            let x1 = #[trigger] tv[k1].xrefs[a1] as int;
            let x2 = #[trigger] tv[k2].xrefs[a2] as int;
            x1 + 4 <= x2 || x2 + 4 <= x1 || (k1 == k2 && x1 == x2)
        }
}

/// Everything the patch engine guarantees: the grown section and
/// image-size fields, the reassigned string addresses, the appended
/// staging bytes, the rewritten operands, and the rewritten header and
/// section-table records, all in terms of the pre-state.
pub open spec fn patched_result(exe0: Executable, tv: Seq<StringRefV>, input: Seq<u8>,
    exe1: Executable, t1: Seq<StringRef>, out: Seq<u8>) -> bool {
    let li = last_max_idx(exe0.sections@);
    let total = reloc_total(tv, tv.len() as int);
    let new_sz = spec_new_sz(exe0, tv);
    let pad_extra = new_sz - (spec_last(exe0).sz_physical + total);
    let hdr_off = exe0.offset_pe_header as int;
    let sect_off = exe0.offset_section_table as int;
    let sect_end = sect_off + exe0.sections@.len() * SZ_SECTION;
    let ilen = input.len() as int;
    &&& exe1.offset_pe_header == exe0.offset_pe_header
            &&& exe1.offset_section_table == exe0.offset_section_table
            &&& exe1.pe_header == exe0.pe_header
            &&& exe1.pe_header2 == exe0.pe_header2
            &&& exe1.pe_header_win == PEHeaderWindows {
                sz_image: spec_img_new(exe0, tv) as u32, ..exe0.pe_header_win }
            &&& exe1.sections@.len() == exe0.sections@.len()
            &&& exe1.sections@[li] == PESectionHeader {
                sz_physical: new_sz as u32, sz_virtual: new_sz as u32,
                ..exe0.sections@[li] }
            &&& forall|j: int| 0 <= j < exe0.sections@.len() && j != li
                ==> exe1.sections@[j] == exe0.sections@[j]
            &&& t1.len() == tv.len()
            &&& forall|k: int| 0 <= k < tv.len() ==> {
                &&& (#[trigger] t1[k]).str@ == tv[k].text
                &&& t1[k].xrefs@ == tv[k].xrefs
                &&& t1[k].addr_virt == spec_new_virt(exe0, tv, k)
                &&& t1[k].addr_phys
                    == spec_base_phys(exe0) + reloc_total(tv, k)
            }
            &&& out.len() == ilen + total + pad_extra
            &&& out.subrange(ilen, out.len() as int)
                == staging_prefix(tv, tv.len() as int) + zeros(pad_extra)
            &&& forall|i: int| 0 <= i < ilen && !in_xref_range(tv, i)
                && !(hdr_off <= i < hdr_off + SZ_HEADERS)
                && !(sect_off <= i < sect_end)
                ==> out[i] == input[i]
            &&& forall|k: int, a: int| 0 <= k < tv.len() && 0 <= a < tv[k].xrefs.len()
                ==> {
                    let x = #[trigger] tv[k].xrefs[a] as int;
                    out.subrange(x + 1, x + 5)
                        == spec_u32_to_le_bytes(spec_new_virt(exe0, tv, k) as u32)
                }
            &&& out.subrange(hdr_off, hdr_off + SZ_COFF)
                == spec_coff_bytes(exe0.pe_header)
            &&& out.subrange(hdr_off + SZ_COFF, hdr_off + SZ_COFF + SZ_OPT)
                == spec_opt_bytes(exe0.pe_header2)
            &&& out.subrange(hdr_off + SZ_COFF + SZ_OPT, hdr_off + SZ_HEADERS)
                == spec_win_bytes(PEHeaderWindows {
                    sz_image: spec_img_new(exe0, tv) as u32, ..exe0.pe_header_win })
            &&& forall|si: int| 0 <= si < exe0.sections@.len()
                ==> out.subrange(sect_off + si * SZ_SECTION,
                    sect_off + si * SZ_SECTION + SZ_SECTION)
                    == spec_section_bytes(#[trigger] exe1.sections@[si])
        
}

/// Produce the complete patched image: the original bytes, the staged
/// string storage appended, every recorded operand rewritten to the new
/// virtual address, and the three header records and the section table
/// rewritten last with the grown sizes.
///
/// The last section's new physical and virtual size and the image-size
/// field follow the growth-and-alignment rule exactly; every rewrite
/// window holds the little-endian new virtual address of its string.
#[verifier::rlimit(100)]
pub fn build_patched_image(exe: &mut Executable, table: &mut StringTable, input: &[u8])
    -> (out: Vec<u8>)
    requires
        patch_pre(*old(exe), table_view(old(table).entries@), input@.len() as int),
    ensures
        patched_result(*old(exe), table_view(old(table).entries@), input@, *final(exe),
            final(table).entries@, out@),
{
    let ghost exe0 = *exe;
    let ghost tv = table_view(table.entries@);
    let in_len = input.len();
    let ghost ilen = input@.len() as int;
    let n = table.entries.len();
    let ghost total = reloc_total(tv, tv.len() as int);

    let li = find_last_section(&exe.sections);
    let last_virt = exe.sections[li].addr_virtual;
    let last_phys = exe.sections[li].addr_physical;
    let last_sz_phys = exe.sections[li].sz_physical;
    let last_sz_virt = exe.sections[li].sz_virtual;
    let img_base = exe.pe_header_win.addr_base_image;
    proof {
        lemma_reloc_total(tv, tv.len() as int);
    }
    let base_virt: u32 = img_base + last_virt + last_sz_phys;
    let base_phys: u32 = last_phys + last_sz_phys;

    let mut buf = buffer_new();
    let mut reloc_size: u32 = 0;
    let mut k: usize = 0;
    while k < n
        invariant
            patch_pre(exe0, tv, ilen),
            *exe == exe0,
            n == tv.len(),
            base_virt == spec_base_virt(exe0),
            base_phys == spec_base_phys(exe0),
            total == reloc_total(tv, tv.len() as int),
            k <= n,
            table.entries@.len() == n,
            tv == table_view(old(table).entries@),
            forall|j: int| k <= j < n
                ==> table.entries@[j] == old(table).entries@[j],
            forall|j: int| 0 <= j < k ==> {
                &&& (#[trigger] table.entries@[j]).str@ == tv[j].text
                &&& table.entries@[j].xrefs@ == tv[j].xrefs
                &&& table.entries@[j].addr_virt == spec_new_virt(exe0, tv, j)
                &&& table.entries@[j].addr_phys == spec_base_phys(exe0) + reloc_total(tv, j)
            },
            reloc_size == reloc_total(tv, k as int),
            buffer_bytes(&buf) == staging_prefix(tv, k as int),
            buffer_append_ready(&buf),
        decreases n - k,
    {
        proof {
            lemma_reloc_total(tv, k as int);
            lemma_reloc_total(tv, k + 1);
            assert(old(table).entries@[k as int].str@ == tv[k as int].text);
        }
        let ghost text = tv[k as int].text;
        table.entries[k].addr_virt = base_virt + reloc_size;
        table.entries[k].addr_phys = base_phys + reloc_size;
        let slen = table.entries[k].str.len();
        buffer_write_bytes(&mut buf, table.entries[k].str.as_slice());
        buffer_write_u8(&mut buf, 0);
        let ghost start = reloc_total(tv, k as int);
        let ghost target = reloc_total(tv, k + 1);
        proof {
            lemma_round_up(text.len() as int + 1, 4);
            lemma_reloc_mod4(tv, k + 1);
            lemma_reloc_total(tv, k + 1);
        }
        reloc_size = reloc_size + slen as u32 + 1;
        while reloc_size % 4 != 0
            invariant
                start + text.len() + 1 <= reloc_size <= target,
                target == start + block_len(text),
                target % 4 == 0,
                target <= u32::MAX,
                buffer_bytes(&buf) == staging_prefix(tv, k as int) + text + seq![0u8]
                    + zeros(reloc_size - (start + text.len() + 1)),
                buffer_append_ready(&buf),
                start == reloc_total(tv, k as int),
                text == tv[k as int].text,
                0 <= k < tv.len(),
            decreases target - reloc_size,
        {
            proof {
                assert(reloc_size < target);
            }
            buffer_write_u8(&mut buf, 0);
            proof {
                assert(buffer_bytes(&buf) =~= staging_prefix(tv, k as int) + text
                    + seq![0u8] + zeros(reloc_size + 1 - (start + text.len() + 1)));
            }
            reloc_size = reloc_size + 1;
        }
        proof {
            assert(reloc_size as int == target) by (nonlinear_arith)
                requires
                    reloc_size as int % 4 == 0,
                    target % 4 == 0,
                    reloc_size <= target,
                    target - reloc_size < 4;
            assert(buffer_bytes(&buf) =~= staging_prefix(tv, k + 1));
        }
        k = k + 1;
    }
    proof {
        assert(reloc_size == total);
        assert(buffer_bytes(&buf) == staging_prefix(tv, tv.len() as int));
    }

    let align_sector = exe.pe_header_win.align_sector;
    let align_file = exe.pe_header_win.align_file;
    let align_max: u32 = if align_sector >= align_file { align_sector } else { align_file };
    let ghost new_sz_spec = spec_new_sz(exe0, tv);
    proof {
        lemma_reloc_total(tv, tv.len() as int);
        lemma_round_up(last_sz_phys + total, align_max as int);
    }
    let mut new_sz_phys: u32 = last_sz_phys + reloc_size;
    while new_sz_phys % align_max != 0
        invariant
            align_max == spec_align_max(exe0),
            align_max > 0,
            last_sz_phys + total <= new_sz_phys <= new_sz_spec,
            new_sz_spec == round_up(last_sz_phys + total, align_max as int),
            new_sz_spec <= u32::MAX,
            total >= 0,
            buffer_bytes(&buf) == staging_prefix(tv, tv.len() as int)
                + zeros(new_sz_phys - (last_sz_phys + total)),
            buffer_append_ready(&buf),
            total == reloc_total(tv, tv.len() as int),
        decreases new_sz_spec - new_sz_phys,
    {
        proof {
            lemma_round_up(last_sz_phys + total, align_max as int);
            assert(new_sz_phys < new_sz_spec) by {
                if new_sz_phys == new_sz_spec {
                    assert(new_sz_spec % align_max as int == 0);
                }
            };
        }
        buffer_write_u8(&mut buf, 0);
        proof {
            assert(buffer_bytes(&buf) =~= staging_prefix(tv, tv.len() as int)
                + zeros(new_sz_phys + 1 - (last_sz_phys + total)));
        }
        new_sz_phys = new_sz_phys + 1;
    }
    proof {
        lemma_round_up(last_sz_phys + total, align_max as int);
        assert(new_sz_phys == new_sz_spec) by {
            assert(new_sz_phys % align_max == 0);
            assert(new_sz_phys as int % (align_max as int) == 0) by {
                assert(new_sz_phys % align_max == 0);
            };
            assert(new_sz_spec % align_max as int == 0);
            assert(new_sz_phys <= new_sz_spec < new_sz_phys + align_max);
            assert(new_sz_phys as int == new_sz_spec) by (nonlinear_arith)
                requires
                    align_max > 0,
                    new_sz_phys as int % (align_max as int) == 0,
                    new_sz_spec % (align_max as int) == 0,
                    new_sz_phys <= new_sz_spec,
                    new_sz_spec - new_sz_phys < align_max;
        };
    }
    exe.sections[li].sz_physical = new_sz_phys;
    exe.sections[li].sz_virtual = new_sz_phys;

    proof {
        assert(exe.pe_header_win.sz_image == exe0.pe_header_win.sz_image);
        assert(new_sz_phys as int == spec_new_sz(exe0, tv));
        assert(last_sz_virt == spec_last(exe0).sz_virtual);
    }
    let img0: u32 = exe.pe_header_win.sz_image + (new_sz_phys - last_sz_virt);
    proof {
        assert(img0 as int == exe0.pe_header_win.sz_image
            + (spec_new_sz(exe0, tv) - spec_last(exe0).sz_virtual));
    }
    let img_new: u32;
    if img0 % align_file > 0 {
        proof {
            assert(align_file == exe0.pe_header_win.align_file);
            assert(spec_img_new(exe0, tv)
                == (img0 as int / align_file as int + 1) * (align_file as int));
            assert((img0 as int / align_file as int + 1) * (align_file as int)
                <= u32::MAX);
            let q = img0 as int / align_file as int;
            assert(q + 1 <= (q + 1) * (align_file as int)) by (nonlinear_arith)
                requires align_file >= 1, q >= 0;
        }
        img_new = (img0 / align_file + 1) * align_file;
    } else {
        img_new = img0;
    }
    exe.pe_header_win.sz_image = img_new;
    proof {
        assert(img_new == spec_img_new(exe0, tv));
    }

    let ghost pad_extra = new_sz_spec - (spec_last(exe0).sz_physical + total);
    let mut out: Vec<u8> = vstd::slice::slice_to_vec(input);
    let mut staged: Vec<u8> = buffer_into_vec(buf);
    proof {
        lemma_reloc_total(tv, tv.len() as int);
        assert(staged@ == staging_prefix(tv, tv.len() as int) + zeros(pad_extra));
    }
    out.append(&mut staged);
    let ghost mid = out@;
    proof {
        assert(mid.subrange(ilen, mid.len() as int)
            =~= staging_prefix(tv, tv.len() as int) + zeros(pad_extra));
    }

    let ghost hdr_off_s = exe0.offset_pe_header as int;
    let ghost sect_off_s = exe0.offset_section_table as int;
    let ghost sect_end_s = sect_off_s + exe0.sections@.len() * SZ_SECTION;

    let mut k: usize = 0;
    while k < n
        invariant
            patch_pre(exe0, tv, ilen),
            n == tv.len(),
            k <= n,
            table.entries@.len() == n,
            forall|j: int| 0 <= j < n ==> {
                &&& (#[trigger] table.entries@[j]).str@ == tv[j].text
                &&& table.entries@[j].xrefs@ == tv[j].xrefs
                &&& table.entries@[j].addr_virt == spec_new_virt(exe0, tv, j)
                &&& table.entries@[j].addr_phys == spec_base_phys(exe0) + reloc_total(tv, j)
            },
            out@.len() == mid.len(),
            ilen <= mid.len(),
            forall|i: int| 0 <= i < out@.len() && !in_xref_range(tv, i)
                ==> out@[i] == mid[i],
            forall|k2: int, a2: int| 0 <= k2 < tv.len() && 0 <= a2 < tv[k2].xrefs.len()
                && k2 < k
                ==> {
                    let x = #[trigger] tv[k2].xrefs[a2] as int;
                    out@.subrange(x + 1, x + 5)
                        == spec_u32_to_le_bytes(spec_new_virt(exe0, tv, k2) as u32)
                },
        decreases n - k,
    {
        let nx = table.entries[k].xrefs.len();
        let mut a: usize = 0;
        while a < nx
            invariant
                patch_pre(exe0, tv, ilen),
                n == tv.len(),
                k < n,
                nx == tv[k as int].xrefs.len(),
                a <= nx,
                table.entries@.len() == n,
                forall|j: int| 0 <= j < n ==> {
                    &&& (#[trigger] table.entries@[j]).str@ == tv[j].text
                    &&& table.entries@[j].xrefs@ == tv[j].xrefs
                    &&& table.entries@[j].addr_virt == spec_new_virt(exe0, tv, j)
                    &&& table.entries@[j].addr_phys
                        == spec_base_phys(exe0) + reloc_total(tv, j)
                },
                out@.len() == mid.len(),
                ilen <= mid.len(),
                forall|i: int| 0 <= i < out@.len() && !in_xref_range(tv, i)
                    ==> out@[i] == mid[i],
                forall|k2: int, a2: int| 0 <= k2 < tv.len() && 0 <= a2 < tv[k2].xrefs.len()
                    && (k2 < k || (k2 == k && a2 < a))
                    ==> {
                        let x = #[trigger] tv[k2].xrefs[a2] as int;
                        out@.subrange(x + 1, x + 5)
                            == spec_u32_to_le_bytes(spec_new_virt(exe0, tv, k2) as u32)
                    },
            decreases nx - a,
        {
            let x = table.entries[k].xrefs[a];
            let v = table.entries[k].addr_virt;
            let ol = out.len();
            let ghost before = out@;
            let xi: usize = x as usize;
            write_u32_at(&mut out, xi + 1, v);
            proof {
                assert(tv[k as int].xrefs[a as int] == x);
                assert forall|i: int| 0 <= i < out@.len() && !in_xref_range(tv, i)
                    implies out@[i] == mid[i] by {
                    if x + 1 <= i < x + 5 {
                        assert(in_xref_range(tv, i));
                    }
                }
                assert forall|k2: int, a2: int|
                    0 <= k2 < tv.len() && 0 <= a2 < tv[k2].xrefs.len()
                    && (k2 < k || (k2 == k && a2 <= a))
                    implies ({
                        let x2 = #[trigger] tv[k2].xrefs[a2] as int;
                        out@.subrange(x2 + 1, x2 + 5)
                            == spec_u32_to_le_bytes(spec_new_virt(exe0, tv, k2) as u32)
                    }) by {
                    let x2 = tv[k2].xrefs[a2] as int;
                    if k2 == k && a2 == a {
                        assert(out@.subrange(x2 + 1, x2 + 5)
                            =~= spec_u32_to_le_bytes(v));
                    } else if k2 == k && x2 == x {
                        assert(out@.subrange(x2 + 1, x2 + 5)
                            =~= spec_u32_to_le_bytes(v));
                    } else {
                        assert(x2 + 4 <= x || x + 4 <= x2);
                        assert(out@.subrange(x2 + 1, x2 + 5)
                            =~= before.subrange(x2 + 1, x2 + 5));
                    }
                }
            }
            a = a + 1;
        }
        k = k + 1;
    }

    let mut hdr_bytes: Vec<u8> = Vec::new();
    push_coff_bytes(&mut hdr_bytes, &exe.pe_header);
    push_opt_bytes(&mut hdr_bytes, &exe.pe_header2);
    push_win_bytes(&mut hdr_bytes, &exe.pe_header_win);
    proof {
        vstd::bytes::lemma_auto_spec_u16_to_from_le_bytes();
        vstd::bytes::lemma_auto_spec_u32_to_from_le_bytes();
        vstd::bytes::lemma_auto_spec_u64_to_from_le_bytes();
        assert(hdr_bytes@.len() == SZ_HEADERS);
    }
    let ghost after_xref = out@;
    write_bytes_at(&mut out, exe.offset_pe_header as usize, &hdr_bytes);
    proof {
        vstd::bytes::lemma_auto_spec_u16_to_from_le_bytes();
        vstd::bytes::lemma_auto_spec_u32_to_from_le_bytes();
        vstd::bytes::lemma_auto_spec_u64_to_from_le_bytes();
        assert forall|k2: int, a2: int| 0 <= k2 < tv.len() && 0 <= a2 < tv[k2].xrefs.len()
            implies ({
                let x = #[trigger] tv[k2].xrefs[a2] as int;
                out@.subrange(x + 1, x + 5)
                    == spec_u32_to_le_bytes(spec_new_virt(exe0, tv, k2) as u32)
            }) by {
            let x = tv[k2].xrefs[a2] as int;
            assert(out@.subrange(x + 1, x + 5) =~= after_xref.subrange(x + 1, x + 5));
        }
        let hb = hdr_bytes@;
        assert(hb =~= spec_coff_bytes(exe0.pe_header) + spec_opt_bytes(exe0.pe_header2)
            + spec_win_bytes(exe.pe_header_win));
        assert(out@.subrange(hdr_off_s, hdr_off_s + SZ_HEADERS) == hb);
        assert forall|i: int| 0 <= i < SZ_HEADERS
            implies out@[hdr_off_s + i] == hb[i] by {
            assert(out@.subrange(hdr_off_s, hdr_off_s + SZ_HEADERS)[i]
                == out@[hdr_off_s + i]);
        }
        assert(spec_coff_bytes(exe0.pe_header).len() == SZ_COFF);
        assert(spec_opt_bytes(exe0.pe_header2).len() == SZ_OPT);
        assert(spec_win_bytes(exe.pe_header_win).len() == SZ_WIN);
        assert(out@.subrange(hdr_off_s, hdr_off_s + SZ_COFF)
            =~= spec_coff_bytes(exe0.pe_header));
        assert forall|j: int| 0 <= j < SZ_OPT
            implies out@.subrange(hdr_off_s + SZ_COFF, hdr_off_s + SZ_COFF + SZ_OPT)[j]
                == spec_opt_bytes(exe0.pe_header2)[j] by {
            assert(out@[hdr_off_s + (SZ_COFF + j)] == hb[SZ_COFF + j]);
            assert(hb[SZ_COFF + j] == spec_opt_bytes(exe0.pe_header2)[j]);
        }
        assert(out@.subrange(hdr_off_s + SZ_COFF, hdr_off_s + SZ_COFF + SZ_OPT)
            =~= spec_opt_bytes(exe0.pe_header2));
        assert forall|j: int| 0 <= j < SZ_WIN
            implies out@.subrange(hdr_off_s + SZ_COFF + SZ_OPT, hdr_off_s + SZ_HEADERS)[j]
                == spec_win_bytes(exe.pe_header_win)[j] by {
            assert(out@[hdr_off_s + (SZ_COFF + SZ_OPT + j)] == hb[SZ_COFF + SZ_OPT + j]);
            assert(hb[SZ_COFF + SZ_OPT + j] == spec_win_bytes(exe.pe_header_win)[j]);
        }
        assert(out@.subrange(hdr_off_s + SZ_COFF + SZ_OPT, hdr_off_s + SZ_HEADERS)
            =~= spec_win_bytes(exe.pe_header_win));
    }
    let ghost after_hdr = out@;

    let sect_off = exe.offset_section_table as usize;
    let n_sect = exe.sections.len();
    let mut si: usize = 0;
    while si < n_sect
        invariant
            patch_pre(exe0, tv, ilen),
            n_sect == exe0.sections@.len(),
            si <= n_sect,
            exe.sections@.len() == n_sect,
            sect_off == exe0.offset_section_table as usize,
            sect_off_s == sect_off as int,
            sect_end_s == sect_off_s + n_sect * SZ_SECTION,
            out@.len() == after_hdr.len(),
            ilen <= out@.len(),
            sect_end_s <= ilen,
            ilen <= usize::MAX,
            forall|i: int| 0 <= i < out@.len() && !(sect_off_s <= i < sect_end_s)
                ==> out@[i] == after_hdr[i],
            forall|sj: int| 0 <= sj < si
                ==> out@.subrange(sect_off_s + sj * SZ_SECTION,
                    sect_off_s + sj * SZ_SECTION + SZ_SECTION)
                    == spec_section_bytes(#[trigger] exe.sections@[sj]),
        decreases n_sect - si,
    {
        proof {
            assert(si * SZ_SECTION + SZ_SECTION <= n_sect * SZ_SECTION) by (nonlinear_arith)
                requires si < n_sect, SZ_SECTION == 40;
            assert(si * SZ_SECTION >= 0) by (nonlinear_arith)
                requires si >= 0, SZ_SECTION == 40;
        }
        let mut sect_bytes: Vec<u8> = Vec::new();
        push_section_bytes(&mut sect_bytes, &exe.sections[si]);
        proof {
            vstd::bytes::lemma_auto_spec_u16_to_from_le_bytes();
            vstd::bytes::lemma_auto_spec_u32_to_from_le_bytes();
            vstd::bytes::lemma_auto_spec_u64_to_from_le_bytes();
            assert(sect_bytes@.len() == SZ_SECTION);
        }
        let ghost before = out@;
        write_bytes_at(&mut out, sect_off + si * SZ_SECTION, &sect_bytes);
        proof {
            assert forall|sj: int| 0 <= sj < si + 1
                implies out@.subrange(sect_off_s + sj * SZ_SECTION,
                    sect_off_s + sj * SZ_SECTION + SZ_SECTION)
                    == spec_section_bytes(#[trigger] exe.sections@[sj]) by {
                if sj < si {
                    assert((sj + 1) * SZ_SECTION <= si * SZ_SECTION) by (nonlinear_arith)
                        requires sj < si, SZ_SECTION == 40;
                    assert(sj * SZ_SECTION + SZ_SECTION == (sj + 1) * SZ_SECTION)
                        by (nonlinear_arith);
                    assert(out@.subrange(sect_off_s + sj * SZ_SECTION,
                        sect_off_s + sj * SZ_SECTION + SZ_SECTION)
                        =~= before.subrange(sect_off_s + sj * SZ_SECTION,
                            sect_off_s + sj * SZ_SECTION + SZ_SECTION));
                } else {
                    assert(out@.subrange(sect_off_s + sj * SZ_SECTION,
                        sect_off_s + sj * SZ_SECTION + SZ_SECTION) =~= sect_bytes@);
                }
            }
        }
        si = si + 1;
    }
    proof {
        assert forall|i: int| 0 <= i < ilen && !in_xref_range(tv, i)
            && !(hdr_off_s <= i < hdr_off_s + SZ_HEADERS)
            && !(sect_off_s <= i < sect_end_s)
            implies out@[i] == input@[i] by {
            assert(out@[i] == after_hdr[i]);
            assert(after_hdr[i] == after_xref[i]);
            assert(after_xref[i] == mid[i]);
            assert(mid[i] == input@[i]);
        }
        assert forall|k2: int, a2: int| 0 <= k2 < tv.len() && 0 <= a2 < tv[k2].xrefs.len()
            implies ({
                let x = #[trigger] tv[k2].xrefs[a2] as int;
                out@.subrange(x + 1, x + 5)
                    == spec_u32_to_le_bytes(spec_new_virt(exe0, tv, k2) as u32)
            }) by {
            let x = tv[k2].xrefs[a2] as int;
            assert(out@.subrange(x + 1, x + 5) =~= after_hdr.subrange(x + 1, x + 5));
        }
        assert(out@.subrange(hdr_off_s, hdr_off_s + SZ_COFF)
            =~= after_hdr.subrange(hdr_off_s, hdr_off_s + SZ_COFF));
        assert(out@.subrange(hdr_off_s + SZ_COFF, hdr_off_s + SZ_COFF + SZ_OPT)
            =~= after_hdr.subrange(hdr_off_s + SZ_COFF, hdr_off_s + SZ_COFF + SZ_OPT));
        assert(out@.subrange(hdr_off_s + SZ_COFF + SZ_OPT, hdr_off_s + SZ_HEADERS)
            =~= after_hdr.subrange(hdr_off_s + SZ_COFF + SZ_OPT, hdr_off_s + SZ_HEADERS));
        assert(out@.subrange(ilen, out@.len() as int)
            =~= mid.subrange(ilen, mid.len() as int));
    }
    out
}

/// Every staged-size prefix is a multiple of four.
pub proof fn lemma_reloc_mod4(tv: Seq<StringRefV>, k: int)
    requires 0 <= k <= tv.len(),
    ensures reloc_total(tv, k) % 4 == 0,
    decreases k,
{
    if k > 0 {
        lemma_reloc_mod4(tv, k - 1);
        lemma_round_up(tv[k - 1].text.len() as int + 1, 4);
        assert((reloc_total(tv, k - 1) + block_len(tv[k - 1].text)) % 4 == 0)
            by (nonlinear_arith)
            requires
                reloc_total(tv, k - 1) % 4 == 0,
                block_len(tv[k - 1].text) % 4 == 0;
    }
}


/// Decide executably whether the patch engine's preconditions hold for
/// this image, table and input size.
#[verifier::rlimit(60)]
pub fn can_build_patch(exe: &Executable, table: &StringTable, data_len: usize) -> (r: bool)
    ensures r == patch_pre(*exe, table_view(table.entries@), data_len as int),
{
    let ghost tv = table_view(table.entries@);
    let ghost ilen = data_len as int;
    let ns = exe.sections.len();
    if ns == 0 {
        return false;
    }
    let li = find_last_section(&exe.sections);
    let last = exe.sections[li];
    let align_sector = exe.pe_header_win.align_sector;
    let align_file = exe.pe_header_win.align_file;
    let align_max: u32 = if align_sector >= align_file { align_sector } else { align_file };
    if align_max == 0 || align_file == 0 {
        return false;
    }

    // Total staged size, stopping as soon as it cannot fit in 32 bits.
    let n = table.entries.len();
    let mut total: u64 = 0;
    let mut k: usize = 0;
    while k < n
        invariant
            k <= n == tv.len(),
            tv == table_view(table.entries@),
            total == reloc_total(tv, k as int),
            total <= u32::MAX,
        decreases n - k,
    {
        proof {
            lemma_reloc_total(tv, k as int);
            lemma_reloc_total(tv, k + 1);
            lemma_round_up(tv[k as int].text.len() as int + 1, 4);
        }
        let slen = table.entries[k].str.len();
        if slen as u64 >= u32::MAX as u64 {
            proof {
                assert(block_len(tv[k as int].text) > u32::MAX);
                assert(reloc_total(tv, k + 1) > u32::MAX);
                assert(reloc_total(tv, tv.len() as int) > u32::MAX);
                assert(!patch_pre(*exe, tv, ilen));
            }
            return false;
        }
        let rem: u64 = (slen as u64 + 1) % 4;
        let blk: u64 = if rem == 0 { slen as u64 + 1 } else { slen as u64 + 1 + 4 - rem };
        proof {
            assert(blk == block_len(tv[k as int].text));
        }
        if total + blk > u32::MAX as u64 {
            proof {
                lemma_reloc_total(tv, k + 1);
                assert(reloc_total(tv, k + 1) > u32::MAX);
                assert(reloc_total(tv, tv.len() as int) > u32::MAX);
                assert(!patch_pre(*exe, tv, ilen));
            }
            return false;
        }
        total = total + blk;
        k = k + 1;
    }
    proof {
        lemma_reloc_total(tv, tv.len() as int);
    }

    // Address and size bounds.
    let base_virt: u64 = exe.pe_header_win.addr_base_image as u64 + last.addr_virtual as u64
        + last.sz_physical as u64;
    let base_phys: u64 = last.addr_physical as u64 + last.sz_physical as u64;
    if base_virt + total > u32::MAX as u64 || base_phys + total > u32::MAX as u64 {
        return false;
    }
    let grown: u64 = last.sz_physical as u64 + total;
    let rem: u64 = grown % align_max as u64;
    let new_sz: u64 = if rem == 0 { grown } else { grown + align_max as u64 - rem };
    proof {
        assert(new_sz == spec_new_sz(*exe, tv));
    }
    if new_sz > u32::MAX as u64 || new_sz < last.sz_virtual as u64 {
        return false;
    }
    let img0: u64 = exe.pe_header_win.sz_image as u64 + (new_sz - last.sz_virtual as u64);
    if img0 > u32::MAX as u64 {
        return false;
    }
    let imr: u64 = img0 % align_file as u64;
    let img_new: u64;
    if imr > 0 {
        proof {
            let q = img0 as int / align_file as int;
            vstd::arithmetic::div_mod::lemma_fundamental_div_mod(img0 as int,
                align_file as int);
            assert((q + 1) * (align_file as int)
                == q * (align_file as int) + align_file as int) by (nonlinear_arith);
            assert(q * (align_file as int) <= img0 as int) by (nonlinear_arith)
                requires
                    img0 as int == (align_file as int) * q + (img0 as int % (align_file as int)),
                    align_file > 0,
                    img0 as int % (align_file as int) >= 0;
        }
        img_new = (img0 / align_file as u64 + 1) * align_file as u64;
    } else {
        img_new = img0;
    }
    proof {
        assert(img_new == spec_img_new(*exe, tv));
    }
    if img_new > u32::MAX as u64 {
        return false;
    }
    let hdr_off: u64 = exe.offset_pe_header as u64;
    let sect_off: u64 = exe.offset_section_table as u64;
    let sect_end_w: u128 = sect_off as u128 + ns as u128 * SZ_SECTION as u128;
    if sect_end_w > data_len as u128 {
        return false;
    }
    let sect_end: u64 = sect_end_w as u64;
    if hdr_off + SZ_HEADERS as u64 > data_len as u64 {
        return false;
    }
    if !(hdr_off + SZ_HEADERS as u64 <= sect_off || sect_end <= hdr_off) {
        return false;
    }

    // Every rewrite window inside the file and clear of the headers.
    let mut k: usize = 0;
    while k < n
        invariant
            k <= n == tv.len(),
            tv == table_view(table.entries@),
            hdr_off == exe.offset_pe_header as u64,
            sect_off == exe.offset_section_table as u64,
            sect_end as int == sect_off as int + ns * SZ_SECTION,
            ns == exe.sections@.len(),
            ilen == data_len as int,
            forall|k1: int, a1: int| 0 <= k1 < k && 0 <= a1 < tv[k1].xrefs.len() ==> {
                let x = #[trigger] tv[k1].xrefs[a1] as int;
                &&& x + 5 <= ilen
                &&& (x + 5 <= hdr_off || hdr_off + SZ_HEADERS <= x + 1)
                &&& (x + 5 <= sect_off || sect_end <= x + 1)
            },
        decreases n - k,
    {
        let na = table.entries[k].xrefs.len();
        let mut a: usize = 0;
        while a < na
            invariant
                k < n == tv.len(),
                a <= na == tv[k as int].xrefs.len(),
                tv == table_view(table.entries@),
                hdr_off == exe.offset_pe_header as u64,
                sect_off == exe.offset_section_table as u64,
                sect_end as int == sect_off as int + ns * SZ_SECTION,
                ns == exe.sections@.len(),
                ilen == data_len as int,
                forall|a1: int| 0 <= a1 < a ==> {
                    let x = #[trigger] tv[k as int].xrefs[a1] as int;
                    &&& x + 5 <= ilen
                    &&& (x + 5 <= hdr_off || hdr_off + SZ_HEADERS <= x + 1)
                    &&& (x + 5 <= sect_off || sect_end <= x + 1)
                },
            decreases na - a,
        {
            let x: u64 = table.entries[k].xrefs[a] as u64;
            if x + 5 > data_len as u64
                || !(x + 5 <= hdr_off || hdr_off + SZ_HEADERS as u64 <= x + 1)
                || !(x + 5 <= sect_off || sect_end <= x + 1) {
                return false;
            }
            a = a + 1;
        }
        k = k + 1;
    }

    // Rewrite windows pairwise separated.
    let mut k1: usize = 0;
    while k1 < n
        invariant
            k1 <= n == tv.len(),
            tv == table_view(table.entries@),
            forall|p1: int, q1: int, p2: int, q2: int|
                0 <= p1 < k1 && 0 <= q1 < tv[p1].xrefs.len()
                && 0 <= p2 < tv.len() && 0 <= q2 < tv[p2].xrefs.len()
                && !(p1 == p2 && q1 == q2)
                ==> {
                    let x1 = #[trigger] tv[p1].xrefs[q1] as int;
                    let x2 = #[trigger] tv[p2].xrefs[q2] as int;
                    x1 + 4 <= x2 || x2 + 4 <= x1 || (p1 == p2 && x1 == x2)
                },
        decreases n - k1,
    {
        let na1 = table.entries[k1].xrefs.len();
        let mut a1: usize = 0;
        while a1 < na1
            invariant
                k1 < n == tv.len(),
                a1 <= na1 == tv[k1 as int].xrefs.len(),
                tv == table_view(table.entries@),
                forall|p1: int, q1: int, p2: int, q2: int|
                    0 <= p1 < k1 && 0 <= q1 < tv[p1].xrefs.len()
                    && 0 <= p2 < tv.len() && 0 <= q2 < tv[p2].xrefs.len()
                    && !(p1 == p2 && q1 == q2)
                    ==> {
                        let x1 = #[trigger] tv[p1].xrefs[q1] as int;
                        let x2 = #[trigger] tv[p2].xrefs[q2] as int;
                        x1 + 4 <= x2 || x2 + 4 <= x1 || (p1 == p2 && x1 == x2)
                    },
                forall|q1: int, p2: int, q2: int|
                    0 <= q1 < a1
                    && 0 <= p2 < tv.len() && 0 <= q2 < tv[p2].xrefs.len()
                    && !(k1 == p2 && q1 == q2)
                    ==> {
                        let x1 = #[trigger] tv[k1 as int].xrefs[q1] as int;
                        let x2 = #[trigger] tv[p2].xrefs[q2] as int;
                        x1 + 4 <= x2 || x2 + 4 <= x1 || (k1 == p2 && x1 == x2)
                    },
            decreases na1 - a1,
        {
            let x1: u64 = table.entries[k1].xrefs[a1] as u64;
            let mut k2: usize = 0;
            while k2 < n
                invariant
                    k1 < n == tv.len(),
                    a1 < na1 == tv[k1 as int].xrefs.len(),
                    k2 <= n,
                    tv == table_view(table.entries@),
                    x1 == tv[k1 as int].xrefs[a1 as int],
                    forall|p2: int, q2: int|
                        0 <= p2 < k2 && 0 <= q2 < tv[p2].xrefs.len()
                        && !(k1 == p2 && a1 == q2)
                        ==> {
                            let x2 = #[trigger] tv[p2].xrefs[q2] as int;
                            x1 + 4 <= x2 || x2 + 4 <= x1 || (k1 == p2 && x1 == x2)
                        },
                decreases n - k2,
            {
                let na2 = table.entries[k2].xrefs.len();
                let mut a2: usize = 0;
                while a2 < na2
                    invariant
                        k1 < n == tv.len(),
                        a1 < na1 == tv[k1 as int].xrefs.len(),
                        k2 < n,
                        a2 <= na2 == tv[k2 as int].xrefs.len(),
                        tv == table_view(table.entries@),
                        x1 == tv[k1 as int].xrefs[a1 as int],
                        forall|p2: int, q2: int|
                            0 <= p2 < k2 && 0 <= q2 < tv[p2].xrefs.len()
                            && !(k1 == p2 && a1 == q2)
                            ==> {
                                let x2 = #[trigger] tv[p2].xrefs[q2] as int;
                                x1 + 4 <= x2 || x2 + 4 <= x1 || (k1 == p2 && x1 == x2)
                            },
                        forall|q2: int|
                            0 <= q2 < a2 && !(k1 == k2 && a1 == q2)
                            ==> {
                                let x2 = #[trigger] tv[k2 as int].xrefs[q2] as int;
                                x1 + 4 <= x2 || x2 + 4 <= x1 || (k1 == k2 && x1 == x2)
                            },
                    decreases na2 - a2,
                {
                    if !(k1 == k2 && a1 == a2) {
                        let x2: u64 = table.entries[k2].xrefs[a2] as u64;
                        if !(x1 + 4 <= x2 || x2 + 4 <= x1 || (k1 == k2 && x1 == x2)) {
                            return false;
                        }
                    }
                    a2 = a2 + 1;
                }
                k2 = k2 + 1;
            }
            a1 = a1 + 1;
        }
        k1 = k1 + 1;
    }
    proof {
        assert(patch_pre(*exe, tv, ilen));
    }
    true
}

} // verus!
