//! The two-mode driver: a loader extracts strings and cross-references
//! and renders the manifest; a patcher reads a manifest back and produces
//! the patched image. Each mode-specific method refuses the other mode.

use vstd::prelude::*;
use vstd::string::StringSliceAdditionalSpecFns;
use crate::NError;
use crate::executable::{Executable, spec_exe_valid, spec_exe_parsed, spec_find_section};
use crate::extract::{ScanState, scan_region, spec_region_strings, lemma_region_addr_range,
    found_view};
use crate::manifest::{apply_lines_from, apply_line, parse_line, render_manifest,
    is_sorted_order, lines_concat};
use crate::sjis::{sjis_decode, sjis_decode_of, sjis_encode};
use crate::strtable::{StringRef, StringRefV, StringTable, table_view, spec_insert_v,
    lemma_insert_view};
use crate::xref::{scan_xrefs, keys_of, xrefs_of, is_decode_chain, scan_fold_xr};

verus! {

/// Which mode this driver was built for.
#[derive(PartialEq, Eq, Structural)]
pub enum PatcherType {
    Loader,
    Patcher,
}

/// One run's state: the mode, the loaded image, and the string table.
pub struct Patcher {
    pub ptype: PatcherType,
    pub exe: Executable,
    pub map_strings: StringTable,
}

/// The section names every run requires, as 8-byte-padded key bytes.
pub open spec fn name_text() -> Seq<u8> { seq![0x2eu8, 0x74u8, 0x65u8, 0x78u8, 0x74u8] }

pub open spec fn name_data() -> Seq<u8> { seq![0x2eu8, 0x64u8, 0x61u8, 0x74u8, 0x61u8] }

pub open spec fn name_rdata() -> Seq<u8> {
    seq![0x2eu8, 0x72u8, 0x64u8, 0x61u8, 0x74u8, 0x61u8]
}

pub open spec fn name_rsrc() -> Seq<u8> { seq![0x2eu8, 0x72u8, 0x73u8, 0x72u8, 0x63u8] }

/// The image holds all four required sections.
pub open spec fn spec_required_sections(e: Executable) -> bool {
    &&& spec_find_section(e.sections@, name_text()) >= 0
    &&& spec_find_section(e.sections@, name_data()) >= 0
    &&& spec_find_section(e.sections@, name_rdata()) >= 0
    &&& spec_find_section(e.sections@, name_rsrc()) >= 0
}

/// The four section-name literals have the expected byte forms.
proof fn lemma_section_name_bytes()
    ensures
        ".text".spec_bytes() == name_text(),
        ".data".spec_bytes() == name_data(),
        ".rdata".spec_bytes() == name_rdata(),
        ".rsrc".spec_bytes() == name_rsrc(),
{
    reveal_strlit(".text");
    reveal_strlit(".data");
    reveal_strlit(".rdata");
    reveal_strlit(".rsrc");
    assert(vstd::string::is_ascii(".text"));
    assert(vstd::string::is_ascii(".data"));
    assert(vstd::string::is_ascii(".rdata"));
    assert(vstd::string::is_ascii(".rsrc"));
    vstd::string::is_ascii_spec_bytes(".text");
    vstd::string::is_ascii_spec_bytes(".data");
    vstd::string::is_ascii_spec_bytes(".rdata");
    vstd::string::is_ascii_spec_bytes(".rsrc");
    assert(".text".spec_bytes() =~= name_text());
    assert(".data".spec_bytes() =~= name_data());
    assert(".rdata".spec_bytes() =~= name_rdata());
    assert(".rsrc".spec_bytes() =~= name_rsrc());
}

/// The fixed physical ranges of the target binary known to hold
/// translatable text.
pub open spec fn spec_default_regions() -> Seq<(u32, u32)> {
    seq![
        (0x2c4f18u32, 0x2c6003u32),
        (0x2c6170u32, 0x2c6263u32),
        (0x2c6374u32, 0x2c6517u32),
        (0x2c6518u32, 0x2c681fu32),
        (0x2c6820u32, 0x2c6ee3u32),
        (0x2c75c8u32, 0x2c7737u32),
        (0x2c7738u32, 0x2cdc1bu32),
        (0x2cdc6cu32, 0x2cdc8bu32),
        (0x2ceb38u32, 0x2cec1fu32),
        (0x2cec28u32, 0x2d0ac4u32),
    ]
}

/// The built-in scan-region table: spell names, pause-menu strings,
/// music names, menu strings, stage strings, dialogues, the game name,
/// player spell names and endings.
pub fn default_scan_regions() -> (r: Vec<(u32, u32)>)
    ensures r@ == spec_default_regions(),
{
    let mut v: Vec<(u32, u32)> = Vec::new();
    v.push((0x2c4f18, 0x2c6003));
    v.push((0x2c6170, 0x2c6263));
    v.push((0x2c6374, 0x2c6517));
    v.push((0x2c6518, 0x2c681f));
    v.push((0x2c6820, 0x2c6ee3));
    v.push((0x2c75c8, 0x2c7737));
    v.push((0x2c7738, 0x2cdc1b));
    v.push((0x2cdc6c, 0x2cdc8b));
    v.push((0x2ceb38, 0x2cec1f));
    v.push((0x2cec28, 0x2d0ac4));
    proof {
        assert(v@ =~= spec_default_regions());
    }
    v
}

/// One region table is admissible for an image's data: each range is
/// ordered, inside the file, inside the named data section's physical
/// span, and its translated end address fits in 32 bits.
pub open spec fn regions_ok(regions: Seq<(u32, u32)>, rdata: crate::headers::PESectionHeader,
    img_base: u32, dlen: int) -> bool {
    forall|j: int| 0 <= j < regions.len() ==> {
        let b = (#[trigger] regions[j]).0 as int;
        let e = regions[j].1 as int;
        &&& b <= e
        &&& e <= dlen
        &&& rdata.addr_physical <= b
        &&& img_base + rdata.addr_virtual + (e - rdata.addr_physical) <= u32::MAX
    }
}

/// The table records that inserting the scanned strings
/// `found[k..]` produces: each becomes a record keyed by the translated
/// virtual address with no cross-references yet.
pub open spec fn insert_found_fold(tv: Seq<StringRefV>, found: Seq<(int, Seq<u8>)>, k: int,
    img_base: int, rd_virt: int, rd_phys: int) -> Seq<StringRefV>
    decreases found.len() - k,
        when 0 <= k <= found.len()
{
    if k >= found.len() {
        tv
    } else {
        let addr = found[k].0;
        let virt = img_base + rd_virt + (addr - rd_phys);
        let tv2 = spec_insert_v(tv, StringRefV {
            text: found[k].1,
            addr_virt: virt as u32,
            addr_phys: addr as u32,
            xrefs: Seq::empty(),
        });
        insert_found_fold(tv2, found, k + 1, img_base, rd_virt, rd_phys)
    }
}

/// All strings the region table yields, region by region in order.
pub open spec fn regions_found(data: Seq<u8>, regions: Seq<(u32, u32)>, j: int)
    -> Seq<(int, Seq<u8>)>
    decreases regions.len() - j,
        when 0 <= j <= regions.len()
{
    if j >= regions.len() {
        Seq::empty()
    } else {
        let b = regions[j].0 as int;
        let e = regions[j].1 as int;
        let cur = if b <= e && e <= data.len() {
            spec_region_strings(data.subrange(b, e), b)
        } else {
            Seq::empty()
        };
        cur + regions_found(data, regions, j + 1)
    }
}

/// Folding from `k` over a longer list continues through the extension.
proof fn lemma_insert_found_append(tv: Seq<StringRefV>, a: Seq<(int, Seq<u8>)>,
    b: Seq<(int, Seq<u8>)>, k: int, img_base: int, rd_virt: int, rd_phys: int)
    requires 0 <= k <= a.len(),
    ensures
        insert_found_fold(tv, a + b, k, img_base, rd_virt, rd_phys)
            == insert_found_fold(
                insert_found_fold(tv, a, k, img_base, rd_virt, rd_phys),
                b, 0, img_base, rd_virt, rd_phys),
    decreases a.len() - k,
{
    if k >= a.len() {
        lemma_insert_found_suffix(tv, a + b, k, img_base, rd_virt, rd_phys);
        assert((a + b).subrange(k, (a + b).len() as int) =~= b);
    } else {
        assert((a + b)[k] == a[k]);
        let addr = a[k].0;
        let virt = img_base + rd_virt + (addr - rd_phys);
        let tv2 = spec_insert_v(tv, StringRefV {
            text: a[k].1,
            addr_virt: virt as u32,
            addr_phys: addr as u32,
            xrefs: Seq::empty(),
        });
        lemma_insert_found_append(tv2, a, b, k + 1, img_base, rd_virt, rd_phys);
    }
}

/// Folding from `k` equals folding the suffix from its start.
proof fn lemma_insert_found_suffix(tv: Seq<StringRefV>, c: Seq<(int, Seq<u8>)>, k: int,
    img_base: int, rd_virt: int, rd_phys: int)
    requires 0 <= k <= c.len(),
    ensures
        insert_found_fold(tv, c, k, img_base, rd_virt, rd_phys)
            == insert_found_fold(tv, c.subrange(k, c.len() as int), 0, img_base, rd_virt,
                rd_phys),
    decreases c.len() - k,
{
    let s = c.subrange(k, c.len() as int);
    if k >= c.len() {
    } else {
        assert(s[0] == c[k]);
        let addr = c[k].0;
        let virt = img_base + rd_virt + (addr - rd_phys);
        let tv2 = spec_insert_v(tv, StringRefV {
            text: c[k].1,
            addr_virt: virt as u32,
            addr_phys: addr as u32,
            xrefs: Seq::empty(),
        });
        lemma_insert_found_suffix(tv2, c, k + 1, img_base, rd_virt, rd_phys);
        lemma_insert_found_suffix(tv2, s, 1, img_base, rd_virt, rd_phys);
        assert(s.subrange(1, s.len() as int) =~= c.subrange(k + 1, c.len() as int));
    }
}

impl Patcher {
    /// A driver in generate mode: empty image, empty table.
    pub fn new_loader() -> (p: Patcher)
        ensures
            p.ptype == PatcherType::Loader,
            p.map_strings.entries@.len() == 0,
            p.map_strings.wf(),
    {
        Patcher {
            ptype: PatcherType::Loader,
            exe: Executable::new(),
            map_strings: StringTable::new(),
        }
    }

    /// A driver in patch mode: empty image, empty table.
    pub fn new_patcher() -> (p: Patcher)
        ensures
            p.ptype == PatcherType::Patcher,
            p.map_strings.entries@.len() == 0,
            p.map_strings.wf(),
    {
        Patcher {
            ptype: PatcherType::Patcher,
            exe: Executable::new(),
            map_strings: StringTable::new(),
        }
    }

    /// Load and validate the image bytes, then require the `.text`,
    /// `.data`, `.rdata` and `.rsrc` sections to be present.
    pub fn initialize(&mut self, data: &[u8]) -> (r: Result<(), NError>)
        ensures
            r is Ok <==> (spec_exe_valid(data@)
                && spec_required_sections(final(self).exe)),
            r is Ok ==> spec_exe_parsed(data@, final(self).exe),
            r is Err ==> r == Result::<(), NError>::Err(NError::ErrInvalidExe),
            final(self).ptype == old(self).ptype,
            final(self).map_strings == old(self).map_strings,
    {
        let res = self.exe.initialize(data);
        match res {
            Err(e) => { return Err(e); }
            Ok(()) => {}
        }
        proof {
            lemma_section_name_bytes();
        }
        if self.exe.get_section(".text").is_none()
            || self.exe.get_section(".data").is_none()
            || self.exe.get_section(".rdata").is_none()
            || self.exe.get_section(".rsrc").is_none() {
            return Err(NError::ErrInvalidExe);
        }
        Ok(())
    }

    /// Extract every NUL-delimited string from the configured regions and
    /// record, for each, the instructions in the code section that load
    /// its virtual address.
    ///
    /// Refused in patch mode. Fails when a region is out of order, out of
    /// the file, below the `.rdata` base, or when a translated address
    /// would not fit in 32 bits. On success the table is exactly the
    /// extracted strings, keyed by translated virtual address, with the
    /// cross-reference lists the code-section scan yields.
    pub fn loader_load_strings_and_refs(&mut self, data: &[u8], regions: &Vec<(u32, u32)>)
        -> (r: Result<(), NError>)
        requires
            old(self).map_strings.wf(),
            old(self).ptype == PatcherType::Loader ==> {
                &&& spec_find_section(old(self).exe.sections@, name_rdata()) >= 0
                &&& spec_find_section(old(self).exe.sections@, name_text()) >= 0
            },
        ensures
            final(self).ptype == old(self).ptype,
            final(self).exe == old(self).exe,
            final(self).map_strings.wf(),
            old(self).ptype != PatcherType::Loader ==> r
                == Result::<(), NError>::Err(NError::ErrInvalidOperation)
                && final(self).map_strings == old(self).map_strings,
            old(self).ptype == PatcherType::Loader ==> {
                &&& (r is Ok <==> load_ok(old(self).exe, regions@, data@.len() as int))
                &&& (r is Err ==> r == Result::<(), NError>::Err(NError::ErrInvalidExe)
                    && final(self).map_strings == old(self).map_strings)
            },
            old(self).ptype == PatcherType::Loader && r is Ok ==> ({
                let e = old(self).exe;
                let rd = e.sections@[spec_find_section(e.sections@, name_rdata())];
                let tx = e.sections@[spec_find_section(e.sections@, name_text())];
                let tv0 = table_view(old(self).map_strings.entries@);
                let tv1 = insert_found_fold(tv0, regions_found(data@, regions@, 0), 0,
                    e.pe_header_win.addr_base_image as int, rd.addr_virtual as int,
                    rd.addr_physical as int);
                let tbuf = spec_text_buf(e, data@);
                let avail = spec_text_avail(e, data@.len() as int);
                &&& final(self).map_strings.entries@.len() == tv1.len()
                &&& forall|i: int| 0 <= i < tv1.len() ==> {
                    &&& (#[trigger] final(self).map_strings.entries@[i]).str@
                        == tv1[i].text
                    &&& final(self).map_strings.entries@[i].addr_virt == tv1[i].addr_virt
                    &&& final(self).map_strings.entries@[i].addr_phys == tv1[i].addr_phys
                }
                &&& exists|offs: Seq<int>| {
                    &&& #[trigger] is_decode_chain(tbuf, avail, offs)
                    &&& xrefs_of(final(self).map_strings.entries@) == scan_fold_xr(
                        xrefs_of_v(tv1), keys_of_v(tv1), tbuf, tx.addr_physical, offs, 0)
                }
            }),
    {
        if self.ptype != PatcherType::Loader {
            return Err(NError::ErrInvalidOperation);
        }
        proof {
            lemma_section_name_bytes();
        }
        let ghost e0 = self.exe;
        let ghost tv0 = table_view(self.map_strings.entries@);
        let dlen = data.len();
        let rd: crate::headers::PESectionHeader = *match self.exe.get_section(".rdata") {
            Some(sec) => sec,
            None => { return Err(NError::ErrInvalidExe); }
        };
        let tx: crate::headers::PESectionHeader = *match self.exe.get_section(".text") {
            Some(sec) => sec,
            None => { return Err(NError::ErrInvalidExe); }
        };
        let img_base = self.exe.pe_header_win.addr_base_image;

        // Admissibility of every region.
        proof {
            crate::executable::lemma_find_section_bounds(e0.sections@, name_rdata());
            crate::executable::lemma_find_section_bounds(e0.sections@, name_text());
        }
        let nr = regions.len();
        let mut j: usize = 0;
        while j < nr
            invariant
                j <= nr == regions@.len(),
                dlen == data@.len(),
                *self == *old(self),
                old(self).map_strings.wf(),
                old(self).ptype == PatcherType::Loader,
                e0 == old(self).exe,
                tv0 == table_view(old(self).map_strings.entries@),
                0 <= spec_find_section(e0.sections@, name_rdata()) < e0.sections@.len(),
                0 <= spec_find_section(e0.sections@, name_text()) < e0.sections@.len(),
                rd == e0.sections@[spec_find_section(e0.sections@, name_rdata())],
                tx == e0.sections@[spec_find_section(e0.sections@, name_text())],
                img_base == e0.pe_header_win.addr_base_image,
                forall|t: int| 0 <= t < j ==> {
                    let b = (#[trigger] regions@[t]).0 as int;
                    let e = regions@[t].1 as int;
                    &&& b <= e
                    &&& e <= dlen
                    &&& rd.addr_physical <= b
                    &&& img_base + rd.addr_virtual + (e - rd.addr_physical) <= u32::MAX
                },
            decreases nr - j,
        {
            let (b, e) = regions[j];
            if !(b <= e && e as usize <= dlen && rd.addr_physical <= b
                && img_base as u64 + rd.addr_virtual as u64
                    + (e as u64 - rd.addr_physical as u64) <= u32::MAX as u64) {
                return Err(NError::ErrInvalidExe);
            }
            j = j + 1;
        }
        let tp_u = tx.addr_physical;
        let avail: usize = if tp_u as usize >= dlen {
            0
        } else if dlen - tp_u as usize >= tx.sz_physical as usize {
            tx.sz_physical as usize
        } else {
            dlen - tp_u as usize
        };
        if tp_u as u64 + avail as u64 > u32::MAX as u64 {
            return Err(NError::ErrInvalidExe);
        }
        proof {
            assert(load_ok(e0, regions@, dlen as int));
            assert(avail as int == spec_text_avail(e0, dlen as int));
        }

        // Scan every region, strings in region order.
        let mut state = ScanState::new();
        let mut j: usize = 0;
        while j < nr
            invariant
                j <= nr == regions@.len(),
                dlen == data@.len(),
                regions_ok(regions@, rd, img_base, dlen as int),
                state.pending@.len() == 0,
                found_view(state.found@)
                    == regions_found(data@, regions@.subrange(0, j as int), 0),
            decreases nr - j,
        {
            let (b, e) = regions[j];
            let ghost pre = regions@.subrange(0, j as int);
            proof {
                assert(regions@[j as int].0 == b && regions@[j as int].1 == e);
                assert(regions@.subrange(0, j + 1) =~= pre.push((b, e)));
                lemma_regions_found_snoc(data@, pre, (b, e), 0);
            }
            scan_region(&mut state, data, b, e);
            j = j + 1;
        }
        proof {
            assert(regions@.subrange(0, nr as int) =~= regions@);
        }

        // Insert each string under its translated virtual address.
        let ghost fv = regions_found(data@, regions@, 0);
        proof {
            lemma_regions_found_bounds(data@, regions@, 0, rd, img_base);
        }
        let found = state.found;
        let nf = found.len();
        let ghost tv1 = insert_found_fold(tv0, fv, 0, img_base as int,
            rd.addr_virtual as int, rd.addr_physical as int);
        let mut k: usize = 0;
        while k < nf
            invariant
                k <= nf == found@.len(),
                fv == found_view(found@),
                fv == regions_found(data@, regions@, 0),
                img_base == e0.pe_header_win.addr_base_image,
                forall|i: int| 0 <= i < fv.len() ==> {
                    let a = (#[trigger] fv[i]).0;
                    &&& rd.addr_physical <= a <= u32::MAX
                    &&& img_base + rd.addr_virtual + (a - rd.addr_physical) <= u32::MAX
                },
                self.map_strings.wf(),
                tv1 == insert_found_fold(tv0, fv, 0, img_base as int,
                    rd.addr_virtual as int, rd.addr_physical as int),
                insert_found_fold(table_view(self.map_strings.entries@), fv, k as int,
                    img_base as int, rd.addr_virtual as int, rd.addr_physical as int)
                    == tv1,
                self.ptype == old(self).ptype,
                self.exe == e0,
                e0 == old(self).exe,
                tv0 == table_view(old(self).map_strings.entries@),
            decreases nf - k,
        {
            let addr: u32 = found[k].0;
            let text: Vec<u8> = vstd::slice::slice_to_vec(found[k].1.as_slice());
            proof {
                assert(fv[k as int] == (addr as int, found@[k as int].1@));
            }
            let virt: u32 = img_base + rd.addr_virtual + (addr - rd.addr_physical);
            let ghost before = self.map_strings.entries@;
            let sref = StringRef { str: text, addr_virt: virt, addr_phys: addr,
                xrefs: Vec::new() };
            proof {
                lemma_insert_view(before, sref);
            }
            self.map_strings.insert(sref);
            k = k + 1;
        }
        proof {
            assert(table_view(self.map_strings.entries@) == tv1);
        }

        // Read the code section, zero-padded to its on-disk size.
        let tp = tp_u as usize;
        let sz = tx.sz_physical as usize;
        let mut tbuf: Vec<u8> = if avail > 0 {
            vstd::slice::slice_to_vec(vstd::slice::slice_subrange(data, tp, tp + avail))
        } else {
            Vec::new()
        };
        proof {
            if avail > 0 {
                assert(tbuf@.subrange(0, avail as int) =~= data@.subrange(tp as int,
                    tp as int + avail));
            }
        }
        while tbuf.len() < sz
            invariant
                avail as int == spec_text_avail(e0, data@.len() as int),
                avail <= sz,
                avail <= tbuf@.len() <= sz,
                tp == e0.sections@[
                    spec_find_section(e0.sections@, name_text())].addr_physical,
                sz == e0.sections@[
                    spec_find_section(e0.sections@, name_text())].sz_physical,
                avail > 0 ==> tbuf@.subrange(0, avail as int) == data@.subrange(tp as int,
                    tp as int + avail),
                forall|i: int| avail <= i < tbuf@.len() ==> tbuf@[i] == 0u8,
            decreases sz - tbuf@.len(),
        {
            tbuf.push(0u8);
            proof {
                if avail > 0 {
                    assert(tbuf@.subrange(0, avail as int) =~= data@.subrange(tp as int,
                        tp as int + avail));
                }
            }
        }
        proof {
            if avail > 0 {
                assert forall|i: int| 0 <= i < tbuf@.len()
                    implies tbuf@[i] == spec_text_buf(e0, data@)[i] by {
                    if i < avail {
                        assert(tbuf@.subrange(0, avail as int)[i] == tbuf@[i]);
                    }
                }
            }
            assert(tbuf@ =~= spec_text_buf(e0, data@));
        }

        // Walk the instruction stream and record matches.
        let ghost ents1 = self.map_strings.entries@;
        scan_xrefs(&mut self.map_strings, tbuf.as_slice(), avail, tp_u);
        proof {
            assert(keys_of(ents1) =~= keys_of_v(tv1));
            assert(xrefs_of(ents1) =~= xrefs_of_v(tv1));
            assert forall|i: int| 0 <= i < tv1.len() implies {
                &&& (#[trigger] self.map_strings.entries@[i]).str@ == tv1[i].text
                &&& self.map_strings.entries@[i].addr_virt == tv1[i].addr_virt
                &&& self.map_strings.entries@[i].addr_phys == tv1[i].addr_phys
            } by {
                assert(table_view(ents1)[i] == tv1[i]);
            }
        }
        Ok(())
    }

    /// Render the table as manifest text lines, sorted by ascending
    /// physical address, with the replacement field of every line left
    /// empty. Refused in patch mode.
    pub fn loader_create_translation_file(&self) -> (r: Result<Vec<u8>, NError>)
        ensures
            self.ptype != PatcherType::Loader ==> r
                == Result::<Vec<u8>, NError>::Err(NError::ErrInvalidOperation),
            self.ptype == PatcherType::Loader ==> match r {
                Ok(v) => exists|ord: Seq<int>| {
                    &&& #[trigger] is_sorted_order(ord, self.map_strings.entries@)
                    &&& v@ == lines_concat(self.map_strings.entries@, ord, 0)
                },
                Err(_) => false,
            },
    {
        if self.ptype != PatcherType::Loader {
            return Err(NError::ErrInvalidOperation);
        }
        Ok(render_manifest(&self.map_strings))
    }

    /// Read an edited manifest: decode the bytes from the legacy text
    /// encoding, take each well-formed line with a non-empty replacement,
    /// and insert its record keyed by the parsed virtual address, the
    /// last line winning. Refused in generate mode.
    pub fn patcher_load_string_ref_file(&mut self, data: &[u8]) -> (r: Result<(), NError>)
        requires
            old(self).map_strings.wf(),
        ensures
            final(self).ptype == old(self).ptype,
            final(self).exe == old(self).exe,
            final(self).map_strings.wf(),
            old(self).ptype != PatcherType::Patcher ==> r
                == Result::<(), NError>::Err(NError::ErrInvalidOperation)
                && final(self).map_strings == old(self).map_strings,
            old(self).ptype == PatcherType::Patcher ==> {
                &&& r is Ok
                &&& table_view(final(self).map_strings.entries@) == apply_lines_from(
                    table_view(old(self).map_strings.entries@),
                    sjis_decode_of(data@), 0)
            },
    {
        if self.ptype != PatcherType::Patcher {
            return Err(NError::ErrInvalidOperation);
        }
        let ghost tv0 = table_view(self.map_strings.entries@);
        let text = sjis_decode(data);
        let n = text.len();
        let mut p: usize = 0;
        while p < n
            invariant
                p <= n + 1,
                n == text@.len(),
                self.map_strings.wf(),
                self.ptype == old(self).ptype,
                self.exe == old(self).exe,
                apply_lines_from(tv0, text@, 0)
                    == apply_lines_from(table_view(self.map_strings.entries@), text@,
                        p as int),
            decreases n - p,
        {
            let e = crate::manifest::find_in_exec(text.as_slice(), p, n, 0x0a);
            let mut lend = e;
            if e > p && text[e - 1] == 0x0d {
                lend = e - 1;
            }
            let line = vstd::slice::slice_subrange(text.as_slice(), p, lend);
            let ghost l0 = text@.subrange(p as int, e as int);
            proof {
                if e > p && text@[e as int - 1] == 0x0d {
                    assert(line@ =~= l0.drop_last());
                } else {
                    assert(line@ =~= l0);
                }
            }
            let ghost before = self.map_strings.entries@;
            match parse_line(line) {
                None => {}
                Some((virt, repl, xrefs)) => {
                    let encoded = sjis_encode(repl.as_slice());
                    let sref = StringRef { str: encoded, addr_virt: virt, addr_phys: 0,
                        xrefs };
                    proof {
                        lemma_insert_view(before, sref);
                    }
                    self.map_strings.insert(sref);
                }
            }
            proof {
                assert(table_view(self.map_strings.entries@)
                    == apply_line(table_view(before), line@));
            }
            if e >= n {
                p = n;
            } else {
                p = e + 1;
            }
        }
        proof {
            assert(apply_lines_from(table_view(self.map_strings.entries@), text@, p as int)
                == table_view(self.map_strings.entries@));
        }
        Ok(())
    }

    /// Produce the patched image from the loaded image and the table read
    /// from the manifest, as the patch engine's contract says. Refused in
    /// generate mode.
    pub fn patcher_create_patch_exe(&mut self, data: &[u8]) -> (r: Result<Vec<u8>, NError>)
        ensures
            final(self).ptype == old(self).ptype,
            old(self).ptype != PatcherType::Patcher ==> r
                == Result::<Vec<u8>, NError>::Err(NError::ErrInvalidOperation)
                && *final(self) == *old(self),
            old(self).ptype == PatcherType::Patcher ==> {
                &&& (r is Ok <==> crate::patch::patch_pre(old(self).exe,
                    table_view(old(self).map_strings.entries@), data@.len() as int))
                &&& match r {
                    Ok(out) => crate::patch::patched_result(old(self).exe,
                        table_view(old(self).map_strings.entries@), data@,
                        final(self).exe, final(self).map_strings.entries@, out@),
                    Err(e) => e is ErrOther && *final(self) == *old(self),
                }
            },
    {
        if self.ptype != PatcherType::Patcher {
            return Err(NError::ErrInvalidOperation);
        }
        if !crate::patch::can_build_patch(&self.exe, &self.map_strings, data.len()) {
            return Err(NError::ErrOther("patch would not fit the image limits".to_string()));
        }
        let out = crate::patch::build_patched_image(&mut self.exe, &mut self.map_strings,
            data);
        Ok(out)
    }
}


/// Scanning one more region appends that region's strings.
proof fn lemma_regions_found_snoc(data: Seq<u8>, rs: Seq<(u32, u32)>, x: (u32, u32), j: int)
    requires 0 <= j <= rs.len(),
    ensures
        regions_found(data, rs.push(x), j) == regions_found(data, rs, j)
            + ({
                let b = x.0 as int;
                let e = x.1 as int;
                if b <= e && e <= data.len() {
                    spec_region_strings(data.subrange(b, e), b)
                } else {
                    Seq::<(int, Seq<u8>)>::empty()
                }
            }),
    decreases rs.len() - j,
{
    let item = ({
        let b = x.0 as int;
        let e = x.1 as int;
        if b <= e && e <= data.len() {
            spec_region_strings(data.subrange(b, e), b)
        } else {
            Seq::<(int, Seq<u8>)>::empty()
        }
    });
    if j >= rs.len() {
        reveal_with_fuel(regions_found, 3);
        assert(rs.push(x)[j] == x);
        assert(regions_found(data, rs.push(x), j) =~= regions_found(data, rs, j) + item);
    } else {
        assert(rs.push(x)[j] == rs[j]);
        lemma_regions_found_snoc(data, rs, x, j + 1);
        let b = rs[j].0 as int;
        let e = rs[j].1 as int;
        let cur = if b <= e && e <= data.len() {
            spec_region_strings(data.subrange(b, e), b)
        } else {
            Seq::<(int, Seq<u8>)>::empty()
        };
        assert(cur + (regions_found(data, rs, j + 1) + item)
            =~= (cur + regions_found(data, rs, j + 1)) + item);
    }
}

/// Under an admissible region table, every extracted string's address
/// lies at or above the data section's physical base, and its translated
/// virtual address fits in 32 bits.
proof fn lemma_regions_found_bounds(data: Seq<u8>, regions: Seq<(u32, u32)>, j: int,
    rd: crate::headers::PESectionHeader, img_base: u32)
    requires
        0 <= j <= regions.len(),
        regions_ok(regions, rd, img_base, data.len() as int),
    ensures
        forall|i: int| 0 <= i < regions_found(data, regions, j).len() ==> {
            let a = (#[trigger] regions_found(data, regions, j)[i]).0;
            &&& rd.addr_physical <= a <= u32::MAX
            &&& img_base + rd.addr_virtual + (a - rd.addr_physical) <= u32::MAX
        },
    decreases regions.len() - j,
{
    if j < regions.len() {
        let b = regions[j].0 as int;
        let e = regions[j].1 as int;
        lemma_regions_found_bounds(data, regions, j + 1, rd, img_base);
        let cur = if b <= e && e <= data.len() {
            spec_region_strings(data.subrange(b, e), b)
        } else {
            Seq::<(int, Seq<u8>)>::empty()
        };
        if b <= e && e <= data.len() {
            lemma_region_addr_range(data.subrange(b, e), b);
        }
        let rest = regions_found(data, regions, j + 1);
        let whole = regions_found(data, regions, j);
        assert(whole == cur + rest);
        assert forall|i: int| 0 <= i < whole.len() implies ({
            let a = (#[trigger] whole[i]).0;
            &&& rd.addr_physical <= a <= u32::MAX
            &&& img_base + rd.addr_virtual + (a - rd.addr_physical) <= u32::MAX
        }) by {
            if i < cur.len() {
                assert(whole[i] == cur[i]);
                assert(b <= cur[i].0 <= e);
            } else {
                assert(whole[i] == rest[i - cur.len()]);
            }
        }
    }
}

/// The admissibility checks of the loader pass on the image and region
/// table: each region admissible for the `.rdata` section, and the code
/// section's scan span addressable in 32 bits.
pub open spec fn load_ok(e: Executable, regions: Seq<(u32, u32)>, dlen: int) -> bool {
    let rd = e.sections@[spec_find_section(e.sections@, name_rdata())];
    let tx = e.sections@[spec_find_section(e.sections@, name_text())];
    let tp = tx.addr_physical as int;
    let sz = tx.sz_physical as int;
    let avail = if tp >= dlen { 0 } else if dlen - tp >= sz { sz } else { dlen - tp };
    &&& regions_ok(regions, rd, e.pe_header_win.addr_base_image, dlen)
    &&& tx.addr_physical + avail <= u32::MAX
}

/// The zero-padded code-section buffer the scan walks, and how many of
/// its bytes came from the file.
pub open spec fn spec_text_avail(e: Executable, dlen: int) -> int {
    let tx = e.sections@[spec_find_section(e.sections@, name_text())];
    let tp = tx.addr_physical as int;
    let sz = tx.sz_physical as int;
    if tp >= dlen { 0 } else if dlen - tp >= sz { sz } else { dlen - tp }
}

pub open spec fn spec_text_buf(e: Executable, data: Seq<u8>) -> Seq<u8> {
    let tx = e.sections@[spec_find_section(e.sections@, name_text())];
    let tp = tx.addr_physical as int;
    let sz = tx.sz_physical as int;
    let avail = spec_text_avail(e, data.len() as int);
    if avail <= 0 {
        crate::patch::zeros(sz)
    } else {
        data.subrange(tp, tp + avail) + crate::patch::zeros(sz - avail)
    }
}

/// The keys of a shadow table.
pub open spec fn keys_of_v(tv: Seq<StringRefV>) -> Seq<u32> {
    Seq::new(tv.len(), |i: int| tv[i].addr_virt)
}

/// The cross-reference lists of a shadow table.
pub open spec fn xrefs_of_v(tv: Seq<StringRefV>) -> Seq<Seq<u32>> {
    Seq::new(tv.len(), |i: int| tv[i].xrefs)
}

} // verus!
