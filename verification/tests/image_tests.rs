use strpatch::executable::Executable;
use strpatch::NError;

fn put_u16(data: &mut Vec<u8>, off: usize, v: u16) {
    data[off..off + 2].copy_from_slice(&v.to_le_bytes());
}

fn put_u32(data: &mut Vec<u8>, off: usize, v: u32) {
    data[off..off + 4].copy_from_slice(&v.to_le_bytes());
}

fn put_name(data: &mut Vec<u8>, off: usize, name: &str) {
    let mut buf = [0u8; 8];
    buf[..name.len()].copy_from_slice(name.as_bytes());
    data[off..off + 8].copy_from_slice(&buf);
}

/// A minimal well-formed 32-bit image with .text/.data/.rdata/.rsrc.
fn synthetic_image() -> Vec<u8> {
    let mut d = vec![0u8; 0x10000];
    d[0] = 0x4d;
    d[1] = 0x5a;
    put_u32(&mut d, 0x3c, 0x80);
    // COFF header at 0x80
    put_u32(&mut d, 0x80, 0x00004550);
    put_u16(&mut d, 0x84, 0x014c);
    put_u16(&mut d, 0x86, 4); // n_sections
    put_u16(&mut d, 0x94, 96); // sz_opt_headers
    put_u16(&mut d, 0x96, 0x0102);
    // optional header at 0x98
    put_u16(&mut d, 0x98, 0x010b);
    put_u32(&mut d, 0xa8, 0x1000); // entry point
    // windows header at 0xb4
    put_u32(&mut d, 0xb4, 0x400000); // image base
    put_u32(&mut d, 0xb8, 0x1000); // section alignment
    put_u32(&mut d, 0xbc, 0x200); // file alignment
    put_u32(&mut d, 0xd0, 0x5000); // image size
    put_u32(&mut d, 0xd4, 0x400); // headers size
    // section table at 0x80 + 24 + 96 = 0xf8
    let st = 0xf8;
    put_name(&mut d, st, ".text");
    put_u32(&mut d, st + 8, 0x1000);
    put_u32(&mut d, st + 12, 0x1000);
    put_u32(&mut d, st + 16, 0x1000);
    put_u32(&mut d, st + 20, 0x400);
    put_name(&mut d, st + 40, ".data");
    put_u32(&mut d, st + 48, 0x1000);
    put_u32(&mut d, st + 52, 0x2000);
    put_u32(&mut d, st + 56, 0x1000);
    put_u32(&mut d, st + 60, 0x1400);
    put_name(&mut d, st + 80, ".rdata");
    put_u32(&mut d, st + 88, 0x1000);
    put_u32(&mut d, st + 92, 0x3000);
    put_u32(&mut d, st + 96, 0x1000);
    put_u32(&mut d, st + 100, 0x2400);
    put_name(&mut d, st + 120, ".rsrc");
    put_u32(&mut d, st + 128, 0x1000);
    put_u32(&mut d, st + 132, 0x4000);
    put_u32(&mut d, st + 136, 0x1000);
    put_u32(&mut d, st + 140, 0x3400);
    d
}

#[test]
fn short_buffer_is_rejected() {
    let mut exe = Executable::new();
    let data = vec![0u8; 0xffff];
    assert!(matches!(exe.initialize(&data), Err(NError::ErrInvalidExe)));
}

#[test]
fn missing_mz_signature_is_rejected() {
    let mut d = synthetic_image();
    d[0] = 0x00;
    let mut exe = Executable::new();
    assert!(matches!(exe.initialize(&d), Err(NError::ErrInvalidExe)));
}

#[test]
fn bad_pe_magic_is_rejected() {
    let mut d = synthetic_image();
    put_u32(&mut d, 0x80, 0x00004551);
    let mut exe = Executable::new();
    assert!(matches!(exe.initialize(&d), Err(NError::ErrInvalidExe)));
}

#[test]
fn bad_optional_magic_is_rejected() {
    let mut d = synthetic_image();
    put_u16(&mut d, 0x98, 0x020b);
    let mut exe = Executable::new();
    assert!(matches!(exe.initialize(&d), Err(NError::ErrInvalidExe)));
}

#[test]
fn zero_sections_is_rejected() {
    let mut d = synthetic_image();
    put_u16(&mut d, 0x86, 0);
    let mut exe = Executable::new();
    assert!(matches!(exe.initialize(&d), Err(NError::ErrInvalidExe)));
}

#[test]
fn well_formed_image_loads() {
    let d = synthetic_image();
    let mut exe = Executable::new();
    assert!(exe.initialize(&d).is_ok());
    assert_eq!(exe.pe_header.n_sections, 4);
    assert_eq!(exe.sections.len(), 4);
    assert_eq!(exe.pe_header2.magic, 0x010b);
    assert_eq!(exe.pe_header_win.addr_base_image, 0x400000);
    assert_eq!(exe.offset_pe_header, 0x80);
    assert_eq!(exe.offset_section_table, 0xf8);
    let rdata = exe.get_section(".rdata").expect("rdata present");
    assert_eq!(rdata.addr_physical, 0x2400);
    assert_eq!(rdata.addr_virtual, 0x3000);
    assert!(exe.get_section(".bss").is_none());
}

#[test]
fn patch_grows_section_and_image_size() {
    // One replacement of 98 bytes stages 98 + NUL + one pad byte = 100.
    let d = synthetic_image();
    let mut p = strpatch::patcher::Patcher::new_patcher();
    p.initialize(&d).expect("image loads");
    let repl: String = "A".repeat(98);
    let manifest = format!("[00403100,00002500] {{{{{}}}}} {{{{x}}}} [00000500]\n", repl);
    p.patcher_load_string_ref_file(manifest.as_bytes())
        .expect("manifest loads");
    let out = p.patcher_create_patch_exe(&d).expect("patch succeeds");

    // Last section (.rsrc) grows from 0x1000 by 100 rounded up to 0x1000.
    let st = 0xf8 + 120;
    let sz_virtual = u32::from_le_bytes(out[st + 8..st + 12].try_into().unwrap());
    let sz_physical = u32::from_le_bytes(out[st + 16..st + 20].try_into().unwrap());
    assert_eq!(sz_physical, 0x2000);
    assert_eq!(sz_virtual, 0x2000);

    // Image size grows by the same delta, already a multiple of 0x200.
    let sz_image = u32::from_le_bytes(out[0xd0..0xd4].try_into().unwrap());
    assert_eq!(sz_image, 0x6000);

    // Output is the original plus the aligned staging storage.
    assert_eq!(out.len(), 0x10000 + 0x1000);

    // The relocated string sits at the new storage base with its NUL.
    assert_eq!(&out[0x10000..0x10000 + 98], repl.as_bytes());
    assert_eq!(out[0x10000 + 98], 0);

    // Operand rewrite: bytes at xref + 1 hold the new virtual address.
    let new_virt = 0x400000u32 + 0x4000 + 0x1000;
    assert_eq!(&out[0x501..0x505], &new_virt.to_le_bytes());
}

#[test]
fn patch_mode_methods_refuse_loader() {
    let d = synthetic_image();
    let mut p = strpatch::patcher::Patcher::new_loader();
    p.initialize(&d).expect("image loads");
    assert!(matches!(
        p.patcher_load_string_ref_file(b"x"),
        Err(NError::ErrInvalidOperation)
    ));
    assert!(matches!(
        p.patcher_create_patch_exe(&d),
        Err(NError::ErrInvalidOperation)
    ));
    let mut q = strpatch::patcher::Patcher::new_patcher();
    q.initialize(&d).expect("image loads");
    let regions = strpatch::patcher::default_scan_regions();
    assert!(matches!(
        q.loader_load_strings_and_refs(&d, &regions),
        Err(NError::ErrInvalidOperation)
    ));
    assert!(matches!(
        q.loader_create_translation_file(),
        Err(NError::ErrInvalidOperation)
    ));
}

#[test]
fn generate_mode_end_to_end() {
    let mut d = synthetic_image();
    // Strings "ABC\0DE\0" at physical 0x2500 inside .rdata.
    d[0x2500..0x2507].copy_from_slice(b"ABC\0DE\0");
    // A run of NOPs from the .text base, then `mov eax, 0x403100`.
    for i in 0x400..0x500 {
        d[i] = 0x90;
    }
    d[0x500] = 0xb8;
    d[0x501..0x505].copy_from_slice(&0x403100u32.to_le_bytes());

    let mut p = strpatch::patcher::Patcher::new_loader();
    p.initialize(&d).expect("image loads");
    let regions = vec![(0x2500u32, 0x2507u32)];
    p.loader_load_strings_and_refs(&d, &regions)
        .expect("extraction succeeds");
    let manifest = p.loader_create_translation_file().expect("render succeeds");
    let text = String::from_utf8(manifest).expect("ascii manifest");
    let mut lines = text.lines();
    assert_eq!(
        lines.next(),
        Some("[00403100,00002500] {{}}                {{ABC}} [00000500]")
    );
    assert_eq!(
        lines.next(),
        Some("[00403104,00002504] {{}}                {{DE}} []")
    );
    assert_eq!(lines.next(), None);
}
