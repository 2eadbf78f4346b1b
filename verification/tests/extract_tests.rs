use strpatch::extract::ScanState;
use strpatch::strtable::{StringRef, StringTable};
use strpatch::xref::scan_xrefs;

fn scan_all(data: &[u8], begin: u32, end: u32) -> Vec<(u32, Vec<u8>)> {
    let mut st = ScanState::new();
    strpatch::extract::scan_region(&mut st, data, begin, end);
    st.found
}

#[test]
fn region_yields_each_nul_delimited_run() {
    // "ABC\0DE\0" at physical offset 0x40.
    let mut data = vec![0u8; 0x60];
    data[0x40..0x47].copy_from_slice(b"ABC\0DE\0");
    let found = scan_all(&data, 0x40, 0x47);
    assert_eq!(found.len(), 2);
    assert_eq!(found[0].0, 0x40);
    assert_eq!(found[0].1, b"ABC".to_vec());
    assert_eq!(found[1].0, 0x44);
    assert_eq!(found[1].1, b"DE".to_vec());
}

#[test]
fn region_without_trailing_nul_flushes_at_end() {
    let mut data = vec![0u8; 0x20];
    data[0x08..0x0d].copy_from_slice(b"A\0BCD");
    let found = scan_all(&data, 0x08, 0x0d);
    assert_eq!(found.len(), 2);
    assert_eq!(found[0], (0x08, b"A".to_vec()));
    assert_eq!(found[1], (0x0a, b"BCD".to_vec()));
}

#[test]
fn chunk_split_never_changes_the_result() {
    let bytes = b"ABC\0DE\0";
    let base: u32 = 0x100;
    let whole = {
        let mut st = ScanState::new();
        st.process_chunk(bytes, base);
        st.finish_region(base + bytes.len() as u32);
        st.found
    };
    for split in 0..=bytes.len() {
        let mut st = ScanState::new();
        st.process_chunk(&bytes[..split], base);
        st.process_chunk(&bytes[split..], base + split as u32);
        st.finish_region(base + bytes.len() as u32);
        assert_eq!(st.found, whole, "split at {}", split);
    }
}

#[test]
fn string_straddling_the_read_chunk_boundary_is_kept_whole() {
    // scan_region reads in 4096-byte chunks; place a string across the seam.
    let mut data = vec![1u8; 6000];
    data[0] = 0;
    for i in 4090..4102 {
        data[i] = b'S';
    }
    data[4089] = 0;
    data[4102] = 0;
    let found = scan_all(&data, 0, 6000);
    let hit = found
        .iter()
        .find(|(addr, _)| *addr == 4090)
        .expect("straddling string found");
    assert_eq!(hit.1, vec![b'S'; 12]);
}

fn one_entry_table(addr_virt: u32) -> StringTable {
    let mut t = StringTable::new();
    t.insert(StringRef {
        str: b"S".to_vec(),
        addr_virt,
        addr_phys: 0x100,
        xrefs: Vec::new(),
    });
    t
}

#[test]
fn known_address_immediate_is_recorded() {
    let mut t = one_entry_table(0x403100);
    let mut buf = vec![0xb8u8];
    buf.extend_from_slice(&0x403100u32.to_le_bytes());
    scan_xrefs(&mut t, &buf, buf.len(), 0x400);
    assert_eq!(t.entries[0].xrefs, vec![0x400]);

    // The push-immediate opcode is watched too.
    let mut t2 = one_entry_table(0x403100);
    buf[0] = 0x68;
    scan_xrefs(&mut t2, &buf, buf.len(), 0x2000);
    assert_eq!(t2.entries[0].xrefs, vec![0x2000]);
}

#[test]
fn unknown_address_immediate_is_ignored() {
    let mut t = one_entry_table(0x403100);
    let mut buf = vec![0xb8u8];
    buf.extend_from_slice(&0x999999u32.to_le_bytes());
    scan_xrefs(&mut t, &buf, buf.len(), 0x400);
    assert!(t.entries[0].xrefs.is_empty());
}

#[test]
fn other_opcode_with_matching_bytes_is_ignored() {
    // `call rel32` is also five bytes long but carries no watched opcode.
    let mut t = one_entry_table(0x403100);
    let mut buf = vec![0xe8u8];
    buf.extend_from_slice(&0x403100u32.to_le_bytes());
    scan_xrefs(&mut t, &buf, buf.len(), 0x400);
    assert!(t.entries[0].xrefs.is_empty());
}

#[test]
fn table_insert_replaces_on_same_key() {
    let mut t = StringTable::new();
    t.insert(StringRef { str: b"a".to_vec(), addr_virt: 7, addr_phys: 1, xrefs: vec![] });
    t.insert(StringRef { str: b"b".to_vec(), addr_virt: 9, addr_phys: 2, xrefs: vec![] });
    t.insert(StringRef { str: b"c".to_vec(), addr_virt: 7, addr_phys: 3, xrefs: vec![] });
    assert_eq!(t.len(), 2);
    assert_eq!(t.entries[0].str, b"c".to_vec());
    assert_eq!(t.entries[0].addr_phys, 3);
    assert_eq!(t.entries[1].str, b"b".to_vec());
}

#[test]
fn hex_render_and_parse_are_inverse() {
    for v in [0u32, 1, 0xdeadbeef, 0xffffffff, 0x00403100] {
        let mut out = Vec::new();
        strpatch::hex::push_hex8(&mut out, v);
        assert_eq!(out.len(), 8);
        assert_eq!(strpatch::hex::parse_hex_bytes(&out, 0, 8), v);
    }
    let mut out = Vec::new();
    strpatch::hex::push_hex8(&mut out, 0x0040abcd);
    assert_eq!(out, b"0040abcd".to_vec());
}
