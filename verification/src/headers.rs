//! Fixed-layout header records of a 32-bit Windows-style executable image.
//!
//! Every record is read and written field by field as little-endian
//! integers, so the on-disk layout is explicit and independent of any
//! in-memory representation.

use vstd::prelude::*;
use crate::binary::{le16_at, le32_at, le64_at, read_u16_at, read_u32_at, read_u64_at,
    push_u16_le, push_u32_le, push_u64_le};

verus! {

/// Byte size of the COFF file header on disk.
pub const SZ_COFF: usize = 24;

/// Byte size of the optional header on disk.
pub const SZ_OPT: usize = 28;

/// Byte size of the Windows-specific optional header fields on disk.
pub const SZ_WIN: usize = 68;

/// Byte size of one section table record on disk.
pub const SZ_SECTION: usize = 40;

/// COFF file header.
#[derive(Clone, Copy)]
pub struct PEHeaderCOFF {
    pub magic: u32,
    pub machine: u16,
    pub n_sections: u16,
    pub timedate_stamp: u32,
    pub addr_symbol_table: u32,
    pub n_symbol_tables: u32,
    pub sz_opt_headers: u16,
    pub flags: u16,
}

/// Optional header.
#[derive(Clone, Copy)]
pub struct PEHeaderOptional {
    pub magic: u16,
    pub linker_version: u16,
    pub sz_code: u32,
    pub sz_init_data: u32,
    pub sz_uninit_data: u32,
    pub addr_entrypoint: u32,
    pub addr_base_code: u32,
    pub addr_base_data: u32,
}

/// Windows-specific optional header fields.
#[derive(Clone, Copy)]
pub struct PEHeaderWindows {
    pub addr_base_image: u32,
    pub align_sector: u32,
    pub align_file: u32,
    pub version_os: u32,
    pub version_image: u32,
    pub version_subsystem: u32,
    pub version_win32: u32,
    pub sz_image: u32,
    pub sz_headers: u32,
    pub checksum: u32,
    pub subsystem: u16,
    pub flags_dll: u16,
    pub sz_stack_reserve: u32,
    pub sz_stack_commit: u32,
    pub sz_heap_reserve: u32,
    pub sz_heap_commit: u32,
    pub flags_loader: u32,
    pub n_rva_sizes: u32,
}

/// One section table record. The name is kept as the raw 8 bytes in
/// little-endian integer form and compared as bytes, never as a
/// NUL-terminated string.
#[derive(Clone, Copy)]
pub struct PESectionHeader {
    pub name: u64,
    pub sz_virtual: u32,
    pub addr_virtual: u32,
    pub sz_physical: u32,
    pub addr_physical: u32,
    pub irrelevant0: u32,
    pub irrelevant1: u32,
    pub irrelevant2: u32,
    pub irrelevant3: u32,
}

/// The COFF header stored at `off` in `data`.
pub open spec fn spec_coff_at(data: Seq<u8>, off: int) -> PEHeaderCOFF {
    PEHeaderCOFF {
        magic: le32_at(data, off),
        machine: le16_at(data, off + 4),
        n_sections: le16_at(data, off + 6),
        timedate_stamp: le32_at(data, off + 8),
        addr_symbol_table: le32_at(data, off + 12),
        n_symbol_tables: le32_at(data, off + 16),
        sz_opt_headers: le16_at(data, off + 20),
        flags: le16_at(data, off + 22),
    }
}

/// The optional header stored at `off` in `data`.
pub open spec fn spec_opt_at(data: Seq<u8>, off: int) -> PEHeaderOptional {
    PEHeaderOptional {
        magic: le16_at(data, off),
        linker_version: le16_at(data, off + 2),
        sz_code: le32_at(data, off + 4),
        sz_init_data: le32_at(data, off + 8),
        sz_uninit_data: le32_at(data, off + 12),
        addr_entrypoint: le32_at(data, off + 16),
        addr_base_code: le32_at(data, off + 20),
        addr_base_data: le32_at(data, off + 24),
    }
}

/// The Windows-specific fields stored at `off` in `data`.
pub open spec fn spec_win_at(data: Seq<u8>, off: int) -> PEHeaderWindows {
    PEHeaderWindows {
        addr_base_image: le32_at(data, off),
        align_sector: le32_at(data, off + 4),
        align_file: le32_at(data, off + 8),
        version_os: le32_at(data, off + 12),
        version_image: le32_at(data, off + 16),
        version_subsystem: le32_at(data, off + 20),
        version_win32: le32_at(data, off + 24),
        sz_image: le32_at(data, off + 28),
        sz_headers: le32_at(data, off + 32),
        checksum: le32_at(data, off + 36),
        subsystem: le16_at(data, off + 40),
        flags_dll: le16_at(data, off + 42),
        sz_stack_reserve: le32_at(data, off + 44),
        sz_stack_commit: le32_at(data, off + 48),
        sz_heap_reserve: le32_at(data, off + 52),
        sz_heap_commit: le32_at(data, off + 56),
        flags_loader: le32_at(data, off + 60),
        n_rva_sizes: le32_at(data, off + 64),
    }
}

/// The section record stored at `off` in `data`.
pub open spec fn spec_section_at(data: Seq<u8>, off: int) -> PESectionHeader {
    PESectionHeader {
        name: le64_at(data, off),
        sz_virtual: le32_at(data, off + 8),
        addr_virtual: le32_at(data, off + 12),
        sz_physical: le32_at(data, off + 16),
        addr_physical: le32_at(data, off + 20),
        irrelevant0: le32_at(data, off + 24),
        irrelevant1: le32_at(data, off + 28),
        irrelevant2: le32_at(data, off + 32),
        irrelevant3: le32_at(data, off + 36),
    }
}

pub fn decode_coff(data: &[u8], off: usize) -> (h: PEHeaderCOFF)
    requires off + SZ_COFF <= data@.len(),
    ensures h == spec_coff_at(data@, off as int),
{
    let n = data.len();
    PEHeaderCOFF {
        magic: read_u32_at(data, off),
        machine: read_u16_at(data, off + 4),
        n_sections: read_u16_at(data, off + 6),
        timedate_stamp: read_u32_at(data, off + 8),
        addr_symbol_table: read_u32_at(data, off + 12),
        n_symbol_tables: read_u32_at(data, off + 16),
        sz_opt_headers: read_u16_at(data, off + 20),
        flags: read_u16_at(data, off + 22),
    }
}

pub fn decode_opt(data: &[u8], off: usize) -> (h: PEHeaderOptional)
    requires off + SZ_OPT <= data@.len(),
    ensures h == spec_opt_at(data@, off as int),
{
    let n = data.len();
    PEHeaderOptional {
        magic: read_u16_at(data, off),
        linker_version: read_u16_at(data, off + 2),
        sz_code: read_u32_at(data, off + 4),
        sz_init_data: read_u32_at(data, off + 8),
        sz_uninit_data: read_u32_at(data, off + 12),
        addr_entrypoint: read_u32_at(data, off + 16),
        addr_base_code: read_u32_at(data, off + 20),
        addr_base_data: read_u32_at(data, off + 24),
    }
}

pub fn decode_win(data: &[u8], off: usize) -> (h: PEHeaderWindows)
    requires off + SZ_WIN <= data@.len(),
    ensures h == spec_win_at(data@, off as int),
{
    let n = data.len();
    PEHeaderWindows {
        addr_base_image: read_u32_at(data, off),
        align_sector: read_u32_at(data, off + 4),
        align_file: read_u32_at(data, off + 8),
        version_os: read_u32_at(data, off + 12),
        version_image: read_u32_at(data, off + 16),
        version_subsystem: read_u32_at(data, off + 20),
        version_win32: read_u32_at(data, off + 24),
        sz_image: read_u32_at(data, off + 28),
        sz_headers: read_u32_at(data, off + 32),
        checksum: read_u32_at(data, off + 36),
        subsystem: read_u16_at(data, off + 40),
        flags_dll: read_u16_at(data, off + 42),
        sz_stack_reserve: read_u32_at(data, off + 44),
        sz_stack_commit: read_u32_at(data, off + 48),
        sz_heap_reserve: read_u32_at(data, off + 52),
        sz_heap_commit: read_u32_at(data, off + 56),
        flags_loader: read_u32_at(data, off + 60),
        n_rva_sizes: read_u32_at(data, off + 64),
    }
}

pub fn decode_section(data: &[u8], off: usize) -> (h: PESectionHeader)
    requires off + SZ_SECTION <= data@.len(),
    ensures h == spec_section_at(data@, off as int),
{
    let n = data.len();
    PESectionHeader {
        name: read_u64_at(data, off),
        sz_virtual: read_u32_at(data, off + 8),
        addr_virtual: read_u32_at(data, off + 12),
        sz_physical: read_u32_at(data, off + 16),
        addr_physical: read_u32_at(data, off + 20),
        irrelevant0: read_u32_at(data, off + 24),
        irrelevant1: read_u32_at(data, off + 28),
        irrelevant2: read_u32_at(data, off + 32),
        irrelevant3: read_u32_at(data, off + 36),
    }
}

/// The on-disk byte encoding of a COFF header.
pub open spec fn spec_coff_bytes(h: PEHeaderCOFF) -> Seq<u8> {
    vstd::bytes::spec_u32_to_le_bytes(h.magic)
        + vstd::bytes::spec_u16_to_le_bytes(h.machine)
        + vstd::bytes::spec_u16_to_le_bytes(h.n_sections)
        + vstd::bytes::spec_u32_to_le_bytes(h.timedate_stamp)
        + vstd::bytes::spec_u32_to_le_bytes(h.addr_symbol_table)
        + vstd::bytes::spec_u32_to_le_bytes(h.n_symbol_tables)
        + vstd::bytes::spec_u16_to_le_bytes(h.sz_opt_headers)
        + vstd::bytes::spec_u16_to_le_bytes(h.flags)
}

/// The on-disk byte encoding of an optional header.
pub open spec fn spec_opt_bytes(h: PEHeaderOptional) -> Seq<u8> {
    vstd::bytes::spec_u16_to_le_bytes(h.magic)
        + vstd::bytes::spec_u16_to_le_bytes(h.linker_version)
        + vstd::bytes::spec_u32_to_le_bytes(h.sz_code)
        + vstd::bytes::spec_u32_to_le_bytes(h.sz_init_data)
        + vstd::bytes::spec_u32_to_le_bytes(h.sz_uninit_data)
        + vstd::bytes::spec_u32_to_le_bytes(h.addr_entrypoint)
        + vstd::bytes::spec_u32_to_le_bytes(h.addr_base_code)
        + vstd::bytes::spec_u32_to_le_bytes(h.addr_base_data)
}

/// The on-disk byte encoding of the Windows-specific fields.
pub open spec fn spec_win_bytes(h: PEHeaderWindows) -> Seq<u8> {
    vstd::bytes::spec_u32_to_le_bytes(h.addr_base_image)
        + vstd::bytes::spec_u32_to_le_bytes(h.align_sector)
        + vstd::bytes::spec_u32_to_le_bytes(h.align_file)
        + vstd::bytes::spec_u32_to_le_bytes(h.version_os)
        + vstd::bytes::spec_u32_to_le_bytes(h.version_image)
        + vstd::bytes::spec_u32_to_le_bytes(h.version_subsystem)
        + vstd::bytes::spec_u32_to_le_bytes(h.version_win32)
        + vstd::bytes::spec_u32_to_le_bytes(h.sz_image)
        + vstd::bytes::spec_u32_to_le_bytes(h.sz_headers)
        + vstd::bytes::spec_u32_to_le_bytes(h.checksum)
        + vstd::bytes::spec_u16_to_le_bytes(h.subsystem)
        + vstd::bytes::spec_u16_to_le_bytes(h.flags_dll)
        + vstd::bytes::spec_u32_to_le_bytes(h.sz_stack_reserve)
        + vstd::bytes::spec_u32_to_le_bytes(h.sz_stack_commit)
        + vstd::bytes::spec_u32_to_le_bytes(h.sz_heap_reserve)
        + vstd::bytes::spec_u32_to_le_bytes(h.sz_heap_commit)
        + vstd::bytes::spec_u32_to_le_bytes(h.flags_loader)
        + vstd::bytes::spec_u32_to_le_bytes(h.n_rva_sizes)
}

/// The on-disk byte encoding of a section record.
pub open spec fn spec_section_bytes(h: PESectionHeader) -> Seq<u8> {
    vstd::bytes::spec_u64_to_le_bytes(h.name)
        + vstd::bytes::spec_u32_to_le_bytes(h.sz_virtual)
        + vstd::bytes::spec_u32_to_le_bytes(h.addr_virtual)
        + vstd::bytes::spec_u32_to_le_bytes(h.sz_physical)
        + vstd::bytes::spec_u32_to_le_bytes(h.addr_physical)
        + vstd::bytes::spec_u32_to_le_bytes(h.irrelevant0)
        + vstd::bytes::spec_u32_to_le_bytes(h.irrelevant1)
        + vstd::bytes::spec_u32_to_le_bytes(h.irrelevant2)
        + vstd::bytes::spec_u32_to_le_bytes(h.irrelevant3)
}

/// Append the on-disk encoding of a COFF header to `out`.
pub fn push_coff_bytes(out: &mut Vec<u8>, h: &PEHeaderCOFF)
    ensures final(out)@ == old(out)@ + spec_coff_bytes(*h),
{
    push_u32_le(out, h.magic);
    push_u16_le(out, h.machine);
    push_u16_le(out, h.n_sections);
    push_u32_le(out, h.timedate_stamp);
    push_u32_le(out, h.addr_symbol_table);
    push_u32_le(out, h.n_symbol_tables);
    push_u16_le(out, h.sz_opt_headers);
    push_u16_le(out, h.flags);
    proof {
        assert(out@ =~= old(out)@ + spec_coff_bytes(*h));
    }
}

/// Append the on-disk encoding of an optional header to `out`.
pub fn push_opt_bytes(out: &mut Vec<u8>, h: &PEHeaderOptional)
    ensures final(out)@ == old(out)@ + spec_opt_bytes(*h),
{
    push_u16_le(out, h.magic);
    push_u16_le(out, h.linker_version);
    push_u32_le(out, h.sz_code);
    push_u32_le(out, h.sz_init_data);
    push_u32_le(out, h.sz_uninit_data);
    push_u32_le(out, h.addr_entrypoint);
    push_u32_le(out, h.addr_base_code);
    push_u32_le(out, h.addr_base_data);
    proof {
        assert(out@ =~= old(out)@ + spec_opt_bytes(*h));
    }
}

/// Append the on-disk encoding of the Windows-specific fields to `out`.
pub fn push_win_bytes(out: &mut Vec<u8>, h: &PEHeaderWindows)
    ensures final(out)@ == old(out)@ + spec_win_bytes(*h),
{
    push_u32_le(out, h.addr_base_image);
    push_u32_le(out, h.align_sector);
    push_u32_le(out, h.align_file);
    push_u32_le(out, h.version_os);
    push_u32_le(out, h.version_image);
    push_u32_le(out, h.version_subsystem);
    push_u32_le(out, h.version_win32);
    push_u32_le(out, h.sz_image);
    push_u32_le(out, h.sz_headers);
    push_u32_le(out, h.checksum);
    push_u16_le(out, h.subsystem);
    push_u16_le(out, h.flags_dll);
    push_u32_le(out, h.sz_stack_reserve);
    push_u32_le(out, h.sz_stack_commit);
    push_u32_le(out, h.sz_heap_reserve);
    push_u32_le(out, h.sz_heap_commit);
    push_u32_le(out, h.flags_loader);
    push_u32_le(out, h.n_rva_sizes);
    proof {
        assert(out@ =~= old(out)@ + spec_win_bytes(*h));
    }
}

/// Append the on-disk encoding of a section record to `out`.
pub fn push_section_bytes(out: &mut Vec<u8>, h: &PESectionHeader)
    ensures final(out)@ == old(out)@ + spec_section_bytes(*h),
{
    push_u64_le(out, h.name);
    push_u32_le(out, h.sz_virtual);
    push_u32_le(out, h.addr_virtual);
    push_u32_le(out, h.sz_physical);
    push_u32_le(out, h.addr_physical);
    push_u32_le(out, h.irrelevant0);
    push_u32_le(out, h.irrelevant1);
    push_u32_le(out, h.irrelevant2);
    push_u32_le(out, h.irrelevant3);
    proof {
        assert(out@ =~= old(out)@ + spec_section_bytes(*h));
    }
}

} // verus!
