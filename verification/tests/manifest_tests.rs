use strpatch::manifest::{parse_line, render_manifest};
use strpatch::strtable::{StringRef, StringTable};

fn table(entries: Vec<(u32, u32, &[u8], Vec<u32>)>) -> StringTable {
    let mut t = StringTable::new();
    for (virt, phys, text, xrefs) in entries {
        t.insert(StringRef { str: text.to_vec(), addr_virt: virt, addr_phys: phys, xrefs });
    }
    t
}

#[test]
fn lines_come_out_sorted_by_physical_address() {
    let t = table(vec![
        (0x403200, 0x2600, b"late", vec![]),
        (0x403100, 0x2500, b"early", vec![0x500, 0x900]),
    ]);
    let text = String::from_utf8(render_manifest(&t)).unwrap();
    let lines: Vec<&str> = text.lines().collect();
    assert_eq!(lines, vec![
        "[00403100,00002500] {{}}                {{early}} [00000500,00000900]",
        "[00403200,00002600] {{}}                {{late}} []",
    ]);
}

#[test]
fn well_formed_line_parses() {
    let line = b"[00403100,00002500] {{HELLO}}                {{orig}} [00000500,00000900]";
    let (virt, repl, xrefs) = parse_line(line).expect("line parses");
    assert_eq!(virt, 0x00403100);
    assert_eq!(repl, b"HELLO".to_vec());
    assert_eq!(xrefs, vec![0x500, 0x900]);
}

#[test]
fn short_or_comment_lines_are_skipped() {
    assert!(parse_line(b"// comment line here").is_none());
    assert!(parse_line(b"[0040,25]").is_none());
    assert!(parse_line(b"").is_none());
}

#[test]
fn empty_replacement_drops_the_line() {
    let line = b"[00403100,00002500] {{}}                {{orig}} [00000500]";
    assert!(parse_line(line).is_none());
}

#[test]
fn empty_xref_list_drops_the_line() {
    let line = b"[00403100,00002500] {{X}}                {{orig}} []";
    assert!(parse_line(line).is_none());
}

#[test]
fn malformed_hex_drops_the_line() {
    let line = b"[0040Z100,00002500] {{X}}                {{orig}} [00000500]";
    assert!(parse_line(line).is_none());
}

#[test]
fn zero_and_short_xref_entries_are_filtered() {
    let line = b"[00403100,00002500] {{X}}                {{orig}} [00000000,00000700]";
    let (_, _, xrefs) = parse_line(line).expect("line parses");
    assert_eq!(xrefs, vec![0x700]);
}

#[test]
fn manifest_round_trip_keeps_addresses_and_xrefs() {
    let t = table(vec![
        (0x403100, 0x2500, b"alpha", vec![0x500]),
        (0x403108, 0x2508, b"beta", vec![0x600, 0x700]),
        (0x403110, 0x2510, b"gamma", vec![0x800]),
    ]);
    let rendered = String::from_utf8(render_manifest(&t)).unwrap();
    // A translator fills every replacement field.
    let edited = rendered.replace("{{}}", "{{filled}}");

    let mut p = strpatch::patcher::Patcher::new_patcher();
    p.patcher_load_string_ref_file(edited.as_bytes()).unwrap();
    let entries = &p.map_strings.entries;
    assert_eq!(entries.len(), 3);
    let mut got: Vec<(u32, Vec<u32>)> = entries
        .iter()
        .map(|e| (e.addr_virt, e.xrefs.clone()))
        .collect();
    got.sort_by_key(|e| e.0);
    assert_eq!(got, vec![
        (0x403100, vec![0x500]),
        (0x403108, vec![0x600, 0x700]),
        (0x403110, vec![0x800]),
    ]);
    for e in entries.iter() {
        assert_eq!(e.str, b"filled".to_vec());
        assert_eq!(e.addr_phys, 0);
    }
}

#[test]
fn unfilled_entry_is_absent_after_read_back() {
    let t = table(vec![
        (0x403100, 0x2500, b"alpha", vec![0x500]),
        (0x403108, 0x2508, b"beta", vec![0x600]),
    ]);
    let rendered = String::from_utf8(render_manifest(&t)).unwrap();
    // Fill only the second line.
    let mut lines: Vec<String> = rendered.lines().map(|l| l.to_string()).collect();
    lines[1] = lines[1].replace("{{}}", "{{second}}");
    let edited = lines.join("\n");

    let mut p = strpatch::patcher::Patcher::new_patcher();
    p.patcher_load_string_ref_file(edited.as_bytes()).unwrap();
    assert_eq!(p.map_strings.entries.len(), 1);
    assert_eq!(p.map_strings.entries[0].addr_virt, 0x403108);
}

#[test]
fn later_duplicate_key_wins() {
    let text = "[00403100,00002500] {{one}}                {{o}} [00000500]\n\
                [00403100,00002500] {{two}}                {{o}} [00000600]\n";
    let mut p = strpatch::patcher::Patcher::new_patcher();
    p.patcher_load_string_ref_file(text.as_bytes()).unwrap();
    assert_eq!(p.map_strings.entries.len(), 1);
    assert_eq!(p.map_strings.entries[0].str, b"two".to_vec());
    assert_eq!(p.map_strings.entries[0].xrefs, vec![0x600]);
}

#[test]
fn patch_refuses_a_rewrite_window_inside_the_headers() {
    // An image is needed; reuse the minimal shape from the image tests.
    let mut d = vec![0u8; 0x10000];
    d[0] = 0x4d;
    d[1] = 0x5a;
    d[0x3c..0x40].copy_from_slice(&0x80u32.to_le_bytes());
    d[0x80..0x84].copy_from_slice(&0x00004550u32.to_le_bytes());
    d[0x86..0x88].copy_from_slice(&1u16.to_le_bytes());
    d[0x94..0x96].copy_from_slice(&96u16.to_le_bytes());
    d[0x98..0x9a].copy_from_slice(&0x010bu16.to_le_bytes());
    d[0xb8..0xbc].copy_from_slice(&0x1000u32.to_le_bytes());
    d[0xbc..0xc0].copy_from_slice(&0x200u32.to_le_bytes());
    let st = 0xf8;
    let names: [&str; 1] = [".text"];
    let mut buf = [0u8; 8];
    buf[..names[0].len()].copy_from_slice(names[0].as_bytes());
    d[st..st + 8].copy_from_slice(&buf);
    d[st + 16..st + 20].copy_from_slice(&0x1000u32.to_le_bytes());
    d[st + 20..st + 24].copy_from_slice(&0x400u32.to_le_bytes());

    let mut exe = strpatch::executable::Executable::new();
    exe.initialize(&d).unwrap();
    let mut p = strpatch::patcher::Patcher::new_patcher();
    p.exe = exe;
    // A cross-reference pointing into the header records is refused.
    let line = "[00403100,00000000] {{X}}                {{o}} [00000090]";
    p.patcher_load_string_ref_file(line.as_bytes()).unwrap();
    assert!(matches!(
        p.patcher_create_patch_exe(&d),
        Err(strpatch::NError::ErrOther(_))
    ));
}

#[test]
fn non_ascii_replacement_is_reencoded() {
    // The manifest file is Shift-JIS on disk; the katakana letter "ア"
    // is 0x83 0x41 there and U+30A2 in the decoded working form.
    let mut line = b"[00403100,00002500] {{".to_vec();
    line.extend_from_slice(&[0x83, 0x41]);
    line.extend_from_slice(b"}}                {{o}} [00000500]");
    let mut p = strpatch::patcher::Patcher::new_patcher();
    p.patcher_load_string_ref_file(&line).unwrap();
    assert_eq!(p.map_strings.entries.len(), 1);
    assert_eq!(p.map_strings.entries[0].str, vec![0x83, 0x41]);
}
