use athanor_core::console::disc::{
    disc_readable, entry_bytes, extract_disc, extract_gcm_iso, extract_ps2_iso, extract_xbox_iso,
    xbox_iso_readable, DiscEntry, DiscType,
};
use athanor_core::console::executable::{
    elf_readable, parse_dol, parse_elf, parse_executable, parse_pe, parse_xbe, ExeType,
};
use athanor_core::AthanorError;

fn put(d: &mut [u8], at: usize, bytes: &[u8]) {
    d[at..at + bytes.len()].copy_from_slice(bytes);
}

fn invalid<T: std::fmt::Debug>(r: Result<T, AthanorError>) -> String {
    match r {
        Err(AthanorError::InvalidData(m)) => m,
        other => panic!("expected invalid data, got {:?}", other),
    }
}

fn xbe_sample() -> Vec<u8> {
    let mut d = vec![0u8; 0x190];
    put(&mut d, 0, b"XBEH");
    put(&mut d, 0x60, &0x1122_3344_5566_7788u64.to_le_bytes());
    put(&mut d, 0x68, &0x150u32.to_le_bytes());
    put(&mut d, 0x8c, &2u16.to_le_bytes());
    put(&mut d, 0x140, &0x12345u64.to_le_bytes());
    put(&mut d, 0x150, b"abc");
    put(&mut d, 0x160, &0x11000u64.to_le_bytes());
    put(&mut d, 0x168, &0x200u64.to_le_bytes());
    // The second section has an empty name.
    put(&mut d, 0x180, &0x22000u64.to_le_bytes());
    d
}

#[test]
fn xbe_header_and_sections() {
    let info = parse_xbe(&xbe_sample()).expect("XBE parses");
    assert_eq!(info.exe_type, ExeType::XboxXBE);
    assert_eq!(info.entry_point, 0x12345);
    assert_eq!(info.metadata.timestamp, 0x1122_3344_5566_7788);
    assert_eq!(info.metadata.version, "Xbox XBE");
    assert_eq!(info.metadata.subsystem, "Xbox Game");
    assert_eq!(info.metadata.dll_characteristics, "");
    assert_eq!(info.sections.len(), 2);
    assert_eq!(info.sections[0].name, "abc");
    assert_eq!(info.sections[0].virtual_address, 0x11000);
    assert_eq!(info.sections[0].virtual_size, 0x200);
    assert_eq!(info.sections[0].raw_address, 0);
    assert_eq!(info.sections[1].name, ".text1");
    assert_eq!(info.sections[1].virtual_address, 0x22000);
    assert!(info.imports.is_empty());
    assert!(info.exports.is_empty());
}

#[test]
fn xbe_errors() {
    assert_eq!(invalid(parse_xbe(&[0u8; 0xFF])), "XBE file too small");
    assert_eq!(invalid(parse_xbe(&[0u8; 0x200])), "Invalid XBE magic");
}

#[test]
fn elf32_sections_are_numbered() {
    let mut d = vec![0u8; 0x34 + 3 * 0x28];
    put(&mut d, 0, b"\x7fELF");
    d[4] = 1;
    put(&mut d, 0x18, &0x0010_0008u32.to_le_bytes());
    put(&mut d, 0x20, &0x34u32.to_le_bytes());
    put(&mut d, 0x2e, &0x28u16.to_le_bytes());
    put(&mut d, 0x30, &5u16.to_le_bytes());
    let info = parse_elf(&d).expect("ELF parses");
    assert_eq!(info.exe_type, ExeType::PS2ELF);
    assert_eq!(info.entry_point, 0x0010_0008);
    assert_eq!(info.metadata.version, "ELF32");
    assert_eq!(info.metadata.subsystem, "PS2 Game");
    let names: Vec<&str> = info.sections.iter().map(|s| s.name.as_str()).collect();
    assert_eq!(names, vec![".section0", ".section1", ".section2"]);
}

#[test]
fn elf_errors() {
    assert_eq!(invalid(parse_elf(&[0u8; 0x33])), "ELF file too small");
    assert_eq!(invalid(parse_elf(&[0u8; 0x40])), "Invalid ELF magic");
    let mut d = vec![0u8; 0x38];
    put(&mut d, 0, b"\x7fELF");
    d[4] = 2;
    assert_eq!(invalid(parse_elf(&d)), "ELF64 header incomplete");
}

#[test]
fn dol_sections_by_slot() {
    let mut d = vec![0u8; 0x100];
    put(&mut d, 0, &0x8000_3100u32.to_le_bytes());
    put(&mut d, 0x40, &0x100u32.to_le_bytes());
    put(&mut d, 4 * 5, &0x8000_9000u32.to_le_bytes());
    put(&mut d, 0x40 + 4 * 5, &0x20u32.to_le_bytes());
    let info = parse_dol(&d).expect("DOL parses");
    assert_eq!(info.exe_type, ExeType::GameCubeDOL);
    assert_eq!(info.entry_point, 0x8000_3100);
    assert_eq!(info.sections.len(), 2);
    assert_eq!(info.sections[0].name, ".text");
    assert_eq!(info.sections[0].raw_address, 0x100);
    assert_eq!(info.sections[0].raw_size, 0x100);
    assert_eq!(info.sections[1].name, ".section5");
    assert_eq!(info.sections[1].virtual_address, 0x8000_9000);
    assert_eq!(info.sections[1].raw_address, 0x100 + 5 * 0x20);
    assert_eq!(info.metadata.version, "GameCube DOL");
    assert_eq!(invalid(parse_dol(&[0u8; 0x10])), "DOL file too small");
    let empty = parse_dol(&[0u8; 0x100]).unwrap();
    assert_eq!(empty.entry_point, 0);
    assert!(empty.sections.is_empty());
}

fn pe_sample() -> Vec<u8> {
    let mut d = vec![0u8; 0x80 + 0x18 + 0xE0 + 0x28];
    put(&mut d, 0, b"MZ");
    put(&mut d, 0x3c, &0x80u32.to_le_bytes());
    put(&mut d, 0x80, b"PE\0\0");
    put(&mut d, 0x86, &1u16.to_le_bytes());
    put(&mut d, 0x88, &0x5F00_0000u32.to_le_bytes());
    put(&mut d, 0x90, &0xE0u16.to_le_bytes());
    put(&mut d, 0x80 + 0x18 + 0x10, &0x1234u32.to_le_bytes());
    let s = 0x80 + 0x18 + 0xE0;
    put(&mut d, s, b".text\0\0\0");
    put(&mut d, s + 0x0c, &0x1000u32.to_le_bytes());
    put(&mut d, s + 0x10, &0x800u32.to_le_bytes());
    put(&mut d, s + 0x14, &0x400u32.to_le_bytes());
    put(&mut d, s + 0x18, &0x600u32.to_le_bytes());
    put(&mut d, s + 0x1c, &0x6000_0020u32.to_le_bytes());
    d
}

#[test]
fn pe_sections() {
    let info = parse_pe(&pe_sample()).expect("PE parses");
    assert_eq!(info.exe_type, ExeType::WindowsPE);
    assert_eq!(info.entry_point, 0x1234);
    assert_eq!(info.metadata.timestamp, 0x5F00_0000);
    assert_eq!(info.metadata.version, "Windows PE");
    assert_eq!(info.metadata.subsystem, "Windows Executable");
    assert_eq!(info.sections.len(), 1);
    let s = &info.sections[0];
    assert_eq!(s.name, ".text");
    assert_eq!((s.virtual_address, s.virtual_size, s.raw_address, s.raw_size), (0x1000, 0x800, 0x400, 0x600));
    assert_eq!(s.characteristics, 0x6000_0020);
}

#[test]
fn pe_errors() {
    assert_eq!(invalid(parse_pe(&[0u8; 0x3F])), "PE file too small");
    assert_eq!(invalid(parse_pe(&[0u8; 0x40])), "Not a PE file (no MZ header)");
    let mut d = vec![0u8; 0x40];
    put(&mut d, 0, b"MZ");
    put(&mut d, 0x3c, &0x30u32.to_le_bytes());
    assert_eq!(invalid(parse_pe(&d)), "PE header incomplete");
    put(&mut d, 0x3c, &0x10u32.to_le_bytes());
    assert_eq!(invalid(parse_pe(&d)), "Invalid PE signature");
}

#[test]
fn executable_kind_is_detected() {
    assert_eq!(parse_executable(&xbe_sample()).unwrap().exe_type, ExeType::XboxXBE);
    assert_eq!(parse_executable(&pe_sample()).unwrap().exe_type, ExeType::WindowsPE);
    assert_eq!(parse_executable(&[0u8; 0x100]).unwrap().exe_type, ExeType::GameCubeDOL);
    assert_eq!(invalid(parse_executable(&[1u8; 0x10])), "Unknown executable format");
    let mut big = vec![0u8; 0x100];
    put(&mut big, 0, &0x1000u32.to_le_bytes());
    assert_eq!(invalid(parse_executable(&big)), "Unknown executable format");
}

#[test]
fn xbox_mini_table() {
    let mut d = vec![0u8; 0x8000];
    put(&mut d, 0x800, &0x1000u64.to_le_bytes());
    put(&mut d, 0x808, &0x20u64.to_le_bytes());
    put(&mut d, 0x810, b"default.xbe");
    // The second record, 272 bytes on, has a path but no size.
    put(&mut d, 0x800 + 272, &0x2000u64.to_le_bytes());
    put(&mut d, 0x800 + 272 + 16, b"empty.bin");
    // The third lists a file.
    put(&mut d, 0x800 + 544, &0x3000u64.to_le_bytes());
    put(&mut d, 0x800 + 544 + 8, &0x7u64.to_le_bytes());
    put(&mut d, 0x800 + 544 + 16, b"data/b.bin");
    let r = extract_xbox_iso(&d).expect("listing");
    assert_eq!(r.disc_type, DiscType::XBox);
    assert_eq!(r.entries.len(), 2);
    assert_eq!(r.entries[0].path, "default.xbe");
    assert_eq!(r.entries[0].offset, 0x1000);
    assert_eq!(r.entries[0].size, 0x20);
    assert!(!r.entries[0].is_directory);
    assert_eq!(r.entries[1].path, "data/b.bin");
    assert_eq!((r.entries[1].offset, r.entries[1].size), (0x3000, 7));
    assert_eq!(r.metadata.boot_file.as_deref(), Some("default.xbe"));
    assert_eq!(r.metadata.title, "Xbox Disc");
    assert_eq!(invalid(extract_xbox_iso(&[0u8; 0x7FF])), "File too small for Xbox ISO");
}

#[test]
fn xbox_standard_listing() {
    let d = vec![0u8; 0x1000];
    let r = extract_xbox_iso(&d).expect("listing");
    assert!(r.entries.is_empty());
    assert_eq!(r.metadata.boot_file, None);
    assert_eq!(r.metadata.title, "Xbox Game Disc");
    assert_eq!(r.metadata.vendor, "Microsoft");
    assert_eq!(r.metadata.version, "1.0");
}

#[test]
fn ps2_images() {
    assert_eq!(invalid(extract_ps2_iso(&[0u8; 0x7FFF])), "File too small for PS2 ISO");
    let r = extract_ps2_iso(&vec![0u8; 0x8000]).expect("short PVD");
    assert_eq!(r.disc_type, DiscType::Playstation2);
    assert!(r.entries.is_empty());
    assert_eq!(r.metadata.title, "PS2 Disc");
    assert_eq!(r.metadata.vendor, "Sony");
}

#[test]
fn ps2_root_directory() {
    let mut d = vec![0u8; 0x9000];
    // Root directory sector field (shifted right by 15): block 0 at position 0.
    let pos = 0x100;
    // A record at `pos`: length 66, LBA 0x0010, size 0x1234, flags 0, name.
    d[pos] = 66;
    put(&mut d, pos + 2, &0x10u16.to_le_bytes());
    put(&mut d, pos + 28, &0x1234u32.to_le_bytes());
    put(&mut d, pos + 34, b"SLUS_201.23;1");
    for b in &mut d[pos + 34 + 13..pos + 34 + 31] {
        *b = b' ';
    }
    // Zero bytes before it are skipped one by one.
    let r = extract_ps2_iso(&d).expect("listing");
    assert_eq!(r.metadata.title, "PS2 Game Disc");
    assert_eq!(r.metadata.vendor, "Sony Computer Entertainment");
    let e = r.entries.iter().find(|e| e.path == "SLUS_201.23").expect("boot file listed");
    assert_eq!(e.offset, 0x10 * 2048);
    assert_eq!(e.size, 0x1234);
    assert!(!e.is_directory);
    assert_eq!(r.metadata.boot_file.as_deref(), Some("SLUS_201.23"));
}

#[test]
fn gamecube_images() {
    assert_eq!(invalid(extract_gcm_iso(&[0u8; 0xBFF])), "File too small for GameCube ISO");
    // Without the mark the listing is empty.
    let plain = extract_gcm_iso(&vec![0u8; 0xC00]).expect("listing");
    assert_eq!(plain.disc_type, DiscType::Gamecube);
    assert!(plain.entries.is_empty());
    assert_eq!(plain.metadata.boot_file, None);
    assert_eq!(plain.metadata.title, "");
}

fn gamecube_sample() -> Vec<u8> {
    let mut d = vec![0u8; 0x1000];
    put(&mut d, 0x200, b" GameCube Demo  ");
    put(&mut d, 0x210, b"  Nintendo      ");
    put(&mut d, 0x220, b"GALE01          ");
    put(&mut d, 0x900, b"boot.app");
    put(&mut d, 0x950, b"main.app");
    put(&mut d, 0xA08, b"game.rel");
    d
}

#[test]
fn gamecube_header_and_files() {
    let r = extract_gcm_iso(&gamecube_sample()).expect("listing");
    assert_eq!(r.disc_type, DiscType::Gamecube);
    assert_eq!(r.metadata.boot_file.as_deref(), Some("DOL"));
    assert_eq!(r.metadata.title, "GameCube Demo");
    assert_eq!(r.metadata.vendor, "Nintendo");
    assert_eq!(r.metadata.disc_id, "GALE01");
    assert_eq!(r.metadata.version, "");
    assert_eq!(r.entries.len(), 2);
    // The first ".app" is the one of "boot.app", at 0x904.
    assert_eq!(r.entries[0].path, "main.app");
    assert_eq!(r.entries[0].offset, 0x904);
    assert_eq!(r.entries[0].size, 0);
    // The ".rel" at 0xA0C is module 0xA0C / 8 = 321, with the three bytes after
    // its dot as offset.
    assert_eq!(r.entries[1].path, "module_321.rel");
    assert_eq!(r.entries[1].offset, 0x6c6572);
    assert!(!r.entries[1].is_directory);
}

#[test]
fn disc_kind_is_detected() {
    // A GameCube image: no Xbox mark, too short for a volume descriptor.
    let cube = gamecube_sample();
    let r = extract_disc(&cube).expect("GameCube listing");
    assert_eq!(r.disc_type, DiscType::Gamecube);
    assert_eq!(r.entries.len(), 2);
    // An XISO mark selects the Xbox reader, which reads an image under 0x8000
    // bytes as a standard XISO.
    let mut xbox = vec![0u8; 0x1000];
    put(&mut xbox, 0, b"X\0\0");
    put(&mut xbox, 0x808, &5u64.to_le_bytes());
    put(&mut xbox, 0x810, b"default.xbe");
    let r = extract_disc(&xbox).expect("Xbox listing");
    assert_eq!(r.disc_type, DiscType::XBox);
    assert_eq!(r.metadata.title, "Xbox Game Disc");
    let mut long = vec![0u8; 0x9000];
    put(&mut long, 0, b"XXXXXX");
    assert_eq!(extract_disc(&long).unwrap().disc_type, DiscType::XBox);
    assert_eq!(invalid(extract_disc(b"XXXXXX")), "File too small for Xbox ISO");
    // "CD001" in the primary volume descriptor selects the PS2 reader.
    let mut ps2 = vec![0u8; 0x9000];
    put(&mut ps2, 0x8001, b"CD001");
    put(&mut ps2, 0x200, b" GameCube");
    let r = extract_disc(&ps2).expect("PS2 listing");
    assert_eq!(r.disc_type, DiscType::Playstation2);
    assert_eq!(r.metadata.title, "PS2 Game Disc");
    // Anything else is unknown.
    let mut other = vec![0u8; 0x9000];
    put(&mut other, 0, b"XXXX");
    put(&mut other, 0x8000, b"CD001");
    assert_eq!(invalid(extract_disc(&other)), "Unknown disc format");
    assert_eq!(invalid(extract_disc(&[])), "Unknown disc format");
}

#[test]
fn xbox_size_alone_selects_the_file_table() {
    // Under 0x8000 bytes the image is a standard XISO, with or without the mark.
    let mut d = vec![0u8; 0x1000];
    put(&mut d, 0, b"X\0\0");
    put(&mut d, 0x800, &0x40u64.to_le_bytes());
    put(&mut d, 0x808, &0x10u64.to_le_bytes());
    put(&mut d, 0x810, b"a.bin");
    let r = extract_xbox_iso(&d).expect("listing");
    assert_eq!(r.metadata.title, "Xbox Game Disc");
    assert!(r.entries.is_empty());
    // From 0x8000 bytes on, the table at 0x800 is read.
    d.resize(0x8000, 0);
    let r = extract_xbox_iso(&d).expect("listing");
    assert_eq!(r.metadata.title, "Xbox Disc");
    assert_eq!(r.entries.len(), 1);
    assert_eq!(r.entries[0].path, "a.bin");
}

#[test]
fn readability_checks() {
    // A standard XISO whose PK00 record points past the end cannot be read.
    let mut d = vec![0u8; 0x1000];
    put(&mut d, 0x100, b"PK00");
    d[0x104] = 1;
    d[4] = 40;
    d[7] = 1; // offset 0x100_0000
    assert!(!xbox_iso_readable(&d));
    assert!(xbox_iso_readable(&vec![0u8; 0x1000]));
    assert!(xbox_iso_readable(&[0u8; 0x10]));
    let mut marked = d.clone();
    put(&mut marked, 0, b"XXXXXX");
    assert!(!disc_readable(&marked));
    assert!(disc_readable(&gamecube_sample()));
    // An ISO image cut inside its volume descriptor's root directory field.
    let mut ps2 = vec![0u8; 0x8001 + 0x90];
    put(&mut ps2, 0x8001, b"CD001");
    assert!(!disc_readable(&ps2));
    ps2.resize(0x9000, 0);
    assert!(disc_readable(&ps2));
    // An ELF64 whose section headers are too short for their name field.
    let mut elf = vec![0u8; 0x40];
    put(&mut elf, 0, b"\x7fELF");
    elf[4] = 2;
    put(&mut elf, 0x28, &0x3eu64.to_le_bytes());
    put(&mut elf, 0x3a, &1u16.to_le_bytes());
    put(&mut elf, 0x3c, &1u16.to_le_bytes());
    assert!(!elf_readable(&elf));
    put(&mut elf, 0x28, &0x10u64.to_le_bytes());
    assert!(elf_readable(&elf));
    assert!(parse_elf(&elf).is_ok());
    assert!(elf_readable(&[0u8; 4]));
}

#[test]
fn entry_bytes_slices_the_disc() {
    let d: Vec<u8> = (0..10u8).collect();
    let e = DiscEntry { path: "f".to_string(), offset: 2, size: 3, is_directory: false };
    assert_eq!(entry_bytes(&d, &e).unwrap(), vec![2, 3, 4]);
    let far = DiscEntry { path: "g".to_string(), offset: 8, size: 3, is_directory: false };
    assert_eq!(invalid(entry_bytes(&d, &far)), "File extends beyond disc data: 8 + 3 > 10");
}
