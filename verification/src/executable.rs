//! The executable image model: structural header validation and loading,
//! and section lookup by name.

use vstd::prelude::*;
use vstd::bytes::{spec_u64_from_le_bytes, u64_from_le_bytes};
use vstd::string::StringSliceAdditionalSpecFns;
use crate::NError;
use crate::binary::{le16_at, le32_at, read_u16_at, read_u32_at};
use crate::headers::{PEHeaderCOFF, PEHeaderOptional, PEHeaderWindows, PESectionHeader,
    SZ_COFF, SZ_OPT, SZ_SECTION, spec_coff_at, spec_opt_at, spec_win_at, spec_section_at,
    decode_coff, decode_opt, decode_win, decode_section};

verus! {

/// The fixed size of the three header records together on disk.
pub const SZ_HEADERS: usize = 120;

/// Smallest file size accepted before any field is trusted.
pub const MIN_FILE_SIZE: usize = 0x10000;

/// Parsed structural metadata of one executable image.
pub struct Executable {
    pub offset_pe_header: u32,
    pub offset_section_table: u32,
    pub pe_header: PEHeaderCOFF,
    pub pe_header2: PEHeaderOptional,
    pub pe_header_win: PEHeaderWindows,
    pub sections: Vec<PESectionHeader>,
}

/// File offset of the structural header, read from the pointer at 0x3c.
pub open spec fn spec_pe_offset(data: Seq<u8>) -> int
    recommends data.len() >= 0x40,
{
    le32_at(data, 0x3c) as int
}

/// File offset of the section table: structural header offset plus the
/// COFF record size plus the optional-header size field of the COFF record.
pub open spec fn spec_section_table_offset(data: Seq<u8>) -> int {
    spec_pe_offset(data) + SZ_COFF + le16_at(data, spec_pe_offset(data) + 20)
}

/// Every structural validation step of the image, in the order checked:
/// plausible size, legacy signature, header bounds, structural magic,
/// nonzero section count, 32-bit optional-header magic, and a section
/// table that lies inside the file.
pub open spec fn spec_exe_valid(data: Seq<u8>) -> bool {
    let off = spec_pe_offset(data);
    let sect_off = spec_section_table_offset(data);
    let n = le16_at(data, off + 6);
    &&& data.len() >= MIN_FILE_SIZE
    &&& le16_at(data, 0) == 0x5a4d
    &&& off + SZ_HEADERS <= data.len()
    &&& le32_at(data, off) == 0x00004550
    &&& n != 0
    &&& le16_at(data, off + 24) == 0x010b
    &&& sect_off <= u32::MAX
    &&& sect_off + n * SZ_SECTION <= data.len()
}

/// What a successfully loaded image holds, field by field, in terms of
/// the file bytes it was read from.
pub open spec fn spec_exe_parsed(data: Seq<u8>, e: Executable) -> bool {
    let off = spec_pe_offset(data);
    let sect_off = spec_section_table_offset(data);
    &&& e.offset_pe_header == off
    &&& e.offset_section_table == sect_off
    &&& e.pe_header == spec_coff_at(data, off)
    &&& e.pe_header2 == spec_opt_at(data, off + SZ_COFF)
    &&& e.pe_header_win == spec_win_at(data, off + SZ_COFF + SZ_OPT)
    &&& e.sections@.len() == e.pe_header.n_sections
    &&& forall|i: int| 0 <= i < e.sections@.len()
        ==> e.sections@[i] == spec_section_at(data, sect_off + i * SZ_SECTION)
}

/// The 8-byte section-name key for a name of at most 8 bytes,
/// right-padded with zero bytes.
pub open spec fn spec_name_key(nb: Seq<u8>) -> u64
    recommends nb.len() <= 8,
{
    spec_u64_from_le_bytes(nb + Seq::new((8 - nb.len()) as nat, |i: int| 0u8))
}

/// Index of the first section whose name field equals the key of `nb`,
/// or -1 if none does.
pub open spec fn spec_find_section(sections: Seq<PESectionHeader>, nb: Seq<u8>) -> int
    decreases sections.len(),
{
    if sections.len() == 0 {
        -1
    } else if sections[0].name == spec_name_key(nb) {
        0
    } else {
        let t = spec_find_section(sections.subrange(1, sections.len() as int), nb);
        if t == -1 { -1 } else { t + 1 }
    }
}

/// If no section in the first `i` records matches and record `i` does,
/// the first match is `i`; if none matches at all, the result is -1.
proof fn lemma_find_section_prefix(sections: Seq<PESectionHeader>, nb: Seq<u8>, i: int)
    requires
        0 <= i <= sections.len(),
        forall|j: int| 0 <= j < i ==> sections[j].name != spec_name_key(nb),
    ensures
        i < sections.len() && sections[i].name == spec_name_key(nb)
            ==> spec_find_section(sections, nb) == i,
        i == sections.len() ==> spec_find_section(sections, nb) == -1,
    decreases i + 1,
{
    if sections.len() == 0 {
    } else if sections[0].name == spec_name_key(nb) {
        assert(i == 0 || sections[0].name != spec_name_key(nb));
    } else {
        let tail = sections.subrange(1, sections.len() as int);
        if i == 0 {
            if sections[0].name != spec_name_key(nb) {
                // the match, if any, is in the tail; nothing to conclude at i == 0
            }
        } else {
            assert(forall|j: int| 0 <= j < i - 1 ==> tail[j].name != spec_name_key(nb));
            lemma_find_section_prefix(tail, nb, i - 1);
            if i < sections.len() && sections[i].name == spec_name_key(nb) {
                assert(tail[i - 1].name == spec_name_key(nb));
            }
        }
    }
}

impl Executable {
    /// An empty image: all header fields zero and no sections.
    pub fn new() -> (e: Executable)
        ensures
            e.sections@.len() == 0,
            e.offset_pe_header == 0,
            e.offset_section_table == 0,
    {
        Executable {
            offset_pe_header: 0,
            offset_section_table: 0,
            pe_header: PEHeaderCOFF {
                magic: 0, machine: 0, n_sections: 0, timedate_stamp: 0,
                addr_symbol_table: 0, n_symbol_tables: 0, sz_opt_headers: 0, flags: 0,
            },
            pe_header2: PEHeaderOptional {
                magic: 0, linker_version: 0, sz_code: 0, sz_init_data: 0,
                sz_uninit_data: 0, addr_entrypoint: 0, addr_base_code: 0, addr_base_data: 0,
            },
            pe_header_win: PEHeaderWindows {
                addr_base_image: 0, align_sector: 0, align_file: 0, version_os: 0,
                version_image: 0, version_subsystem: 0, version_win32: 0, sz_image: 0,
                sz_headers: 0, checksum: 0, subsystem: 0, flags_dll: 0,
                sz_stack_reserve: 0, sz_stack_commit: 0, sz_heap_reserve: 0,
                sz_heap_commit: 0, flags_loader: 0, n_rva_sizes: 0,
            },
            sections: Vec::new(),
        }
    }

    /// Validate the image bytes and load all structural metadata.
    ///
    /// Succeeds exactly on byte buffers that pass every structural check;
    /// on failure the image must not be queried.
    pub fn initialize(&mut self, data: &[u8]) -> (r: Result<(), NError>)
        ensures
            r is Ok <==> spec_exe_valid(data@),
            r is Ok ==> spec_exe_parsed(data@, *final(self)),
            r is Err ==> r == Result::<(), NError>::Err(NError::ErrInvalidExe),
    {
        let file_size = data.len();
        if file_size < MIN_FILE_SIZE {
            return Err(NError::ErrInvalidExe);
        }
        let mz: u16 = read_u16_at(data, 0);
        if mz != 0x5a4d {
            return Err(NError::ErrInvalidExe);
        }
        self.offset_pe_header = read_u32_at(data, 0x3c);
        let off = self.offset_pe_header as usize;
        if file_size < SZ_HEADERS || off > file_size - SZ_HEADERS {
            return Err(NError::ErrInvalidExe);
        }
        self.pe_header = decode_coff(data, off);
        if self.pe_header.magic != 0x00004550 || self.pe_header.n_sections == 0 {
            return Err(NError::ErrInvalidExe);
        }
        self.pe_header2 = decode_opt(data, off + SZ_COFF);
        self.pe_header_win = decode_win(data, off + SZ_COFF + SZ_OPT);
        if self.pe_header2.magic != 0x010b {
            return Err(NError::ErrInvalidExe);
        }
        let sect_off64: u64 = off as u64 + SZ_COFF as u64 + self.pe_header.sz_opt_headers as u64;
        let n = self.pe_header.n_sections as usize;
        if sect_off64 > u32::MAX as u64
            || sect_off64 + (n * SZ_SECTION) as u64 > file_size as u64 {
            return Err(NError::ErrInvalidExe);
        }
        let sect_off: usize = sect_off64 as usize;
        self.offset_section_table = sect_off as u32;
        self.sections = Vec::new();
        let mut i: usize = 0;
        while i < n
            invariant
                self.offset_pe_header as int == spec_pe_offset(data@),
                sect_off as int == spec_section_table_offset(data@),
                self.offset_section_table == sect_off as u32,
                self.pe_header == spec_coff_at(data@, spec_pe_offset(data@)),
                self.pe_header2 == spec_opt_at(data@, spec_pe_offset(data@) + SZ_COFF),
                self.pe_header_win == spec_win_at(data@, spec_pe_offset(data@) + SZ_COFF + SZ_OPT),
                n == self.pe_header.n_sections as usize,
                file_size == data@.len(),
                sect_off + n * SZ_SECTION <= file_size,
                i <= n,
                self.sections@.len() == i,
                forall|j: int| 0 <= j < i
                    ==> self.sections@[j] == spec_section_at(data@, sect_off + j * SZ_SECTION),
            decreases n - i,
        {
            proof {
                assert(i * SZ_SECTION + SZ_SECTION <= n * SZ_SECTION) by (nonlinear_arith)
                    requires i < n, SZ_SECTION == 40;
            }
            let s = decode_section(data, sect_off + i * SZ_SECTION);
            self.sections.push(s);
            i = i + 1;
        }
        proof {
            assert(sect_off as int == spec_section_table_offset(data@));
            assert(spec_exe_parsed(data@, *self));
        }
        Ok(())
    }

    /// The first section whose 8-byte name equals `name` right-padded
    /// with zero bytes, if any.
    pub fn get_section(&self, name: &str) -> (r: Option<&PESectionHeader>)
        requires name.spec_bytes().len() <= 8,
        ensures
            ({
                let idx = spec_find_section(self.sections@, name.spec_bytes());
                match r {
                    Some(s) => idx >= 0 && *s == self.sections@[idx],
                    None => idx == -1,
                }
            }),
    {
        let nb: &[u8] = name.as_bytes();
        proof {
            assert(nb@ == name.spec_bytes());
        }
        let mut padded: Vec<u8> = Vec::new();
        let mut i: usize = 0;
        while i < nb.len()
            invariant
                i <= nb@.len() <= 8,
                padded@ == nb@.subrange(0, i as int),
            decreases nb@.len() - i,
        {
            padded.push(nb[i]);
            proof {
                assert(padded@ =~= nb@.subrange(0, i + 1));
            }
            i = i + 1;
        }
        while padded.len() < 8
            invariant
                padded@.len() <= 8,
                padded@.subrange(0, nb@.len() as int) == nb@,
                nb@.len() <= padded@.len(),
                forall|j: int| nb@.len() <= j < padded@.len() ==> padded@[j] == 0u8,
            decreases 8 - padded@.len(),
        {
            padded.push(0u8);
        }
        proof {
            assert(padded@ =~= nb@ + Seq::new((8 - nb@.len()) as nat, |k: int| 0u8));
        }
        let key: u64 = u64_from_le_bytes(padded.as_slice());
        let ghost nbs = name.spec_bytes();
        let mut i: usize = 0;
        while i < self.sections.len()
            invariant
                nbs == name.spec_bytes(),
                nbs.len() <= 8,
                key == spec_name_key(nbs),
                i <= self.sections@.len(),
                forall|j: int| 0 <= j < i ==> self.sections@[j].name != spec_name_key(nbs),
            decreases self.sections@.len() - i,
        {
            if self.sections[i].name == key {
                proof {
                    lemma_find_section_prefix(self.sections@, nbs, i as int);
                }
                return Some(&self.sections[i]);
            }
            i = i + 1;
        }
        proof {
            lemma_find_section_prefix(self.sections@, nbs, self.sections@.len() as int);
        }
        None
    }
}

/// A found section index is in range and matches.
pub proof fn lemma_find_section_bounds(sections: Seq<PESectionHeader>, nb: Seq<u8>)
    ensures
        spec_find_section(sections, nb) >= 0 ==> {
            &&& spec_find_section(sections, nb) < sections.len()
            &&& sections[spec_find_section(sections, nb)].name == spec_name_key(nb)
        },
    decreases sections.len(),
{
    if sections.len() > 0 && sections[0].name != spec_name_key(nb) {
        lemma_find_section_bounds(sections.subrange(1, sections.len() as int), nb);
    }
}

} // verus!
