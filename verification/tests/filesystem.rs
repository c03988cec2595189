use pkfs::blz::blz_decode;
use pkfs::bytes::{u16_at, u32_at, u8_at};
use pkfs::error::Error;
use pkfs::extract::{walk_narcs, walk_rom};
use pkfs::narc::Narc;
use pkfs::rom::Rom;
use pkfs::signature::{detect_signature, is_narc, signature_extension, signature_label, Signature};
use pkfs::text::str_at;

fn le16(v: u16) -> [u8; 2] {
    v.to_le_bytes()
}

fn le32(v: u32) -> [u8; 4] {
    v.to_le_bytes()
}

/// A NARC holding `files`, with names when given.
fn narc_bytes(files: &[Vec<u8>], names: Option<&[&str]>) -> Vec<u8> {
    let mut btaf = Vec::new();
    btaf.extend_from_slice(&le16(files.len() as u16));
    btaf.extend_from_slice(&le16(0));
    let mut image = Vec::new();
    for f in files {
        let start = image.len() as u32;
        image.extend_from_slice(f);
        btaf.extend_from_slice(&le32(start));
        btaf.extend_from_slice(&le32(image.len() as u32));
    }
    let mut btnf = Vec::new();
    btnf.extend_from_slice(&le32(8));
    btnf.extend_from_slice(&le16(0));
    btnf.extend_from_slice(&le16(1));
    if let Some(ns) = names {
        for n in ns {
            btnf.push(n.len() as u8);
            btnf.extend_from_slice(n.as_bytes());
        }
    }
    btnf.push(0);
    let blocks: Vec<(&[u8; 4], Vec<u8>)> = vec![(b"BTAF", btaf), (b"BTNF", btnf), (b"GMIF", image)];
    let mut out = Vec::new();
    out.extend_from_slice(b"NARC");
    out.extend_from_slice(&[0xFE, 0xFF, 0x00, 0x01]);
    let total: usize = 16 + blocks.iter().map(|b| b.1.len() + 8).sum::<usize>();
    out.extend_from_slice(&le32(total as u32));
    out.extend_from_slice(&le16(16));
    out.extend_from_slice(&le16(3));
    for (tag, payload) in blocks {
        out.extend_from_slice(tag);
        out.extend_from_slice(&le32((payload.len() + 8) as u32));
        out.extend_from_slice(&payload);
    }
    out
}

/// A ROM whose root holds "x.bin" (id 0) and directory "d" holding
/// "y" (id 1); file 2 is unnamed. `files` gives the bytes of the three files.
fn rom_bytes(files: &[Vec<u8>; 3]) -> Vec<u8> {
    let mut fnt = Vec::new();
    let mut sub0 = Vec::new();
    sub0.push(5);
    sub0.extend_from_slice(b"x.bin");
    sub0.push(0x81);
    sub0.extend_from_slice(b"d");
    sub0.extend_from_slice(&le16(0xF001));
    sub0.push(0);
    let mut sub1 = Vec::new();
    sub1.push(1);
    sub1.extend_from_slice(b"y");
    sub1.push(0);
    fnt.extend_from_slice(&le32(16));
    fnt.extend_from_slice(&le16(0));
    fnt.extend_from_slice(&le16(2));
    fnt.extend_from_slice(&le32(16 + sub0.len() as u32));
    fnt.extend_from_slice(&le16(1));
    fnt.extend_from_slice(&le16(0xF000));
    fnt.extend_from_slice(&sub0);
    fnt.extend_from_slice(&sub1);

    let fnt_off = 0x200usize;
    let fat_off = fnt_off + fnt.len();
    let data_off = fat_off + 3 * 8;
    let mut fat = Vec::new();
    let mut blob = Vec::new();
    for f in files.iter() {
        let s = (data_off + blob.len()) as u32;
        blob.extend_from_slice(f);
        fat.extend_from_slice(&le32(s));
        fat.extend_from_slice(&le32((data_off + blob.len()) as u32));
    }
    let arm9 = vec![0xAA, 0xBB, 0xCC];
    let arm9_off = data_off + blob.len();

    let mut rom = vec![0u8; 0x200];
    rom[0..8].copy_from_slice(b"POKEMON ");
    rom[0x0C..0x10].copy_from_slice(b"CPUE");
    rom[0x10..0x12].copy_from_slice(b"01");
    rom[0x12] = 0;
    rom[0x20..0x24].copy_from_slice(&le32(arm9_off as u32));
    rom[0x2C..0x30].copy_from_slice(&le32(arm9.len() as u32));
    rom[0x40..0x44].copy_from_slice(&le32(fnt_off as u32));
    rom[0x44..0x48].copy_from_slice(&le32(fnt.len() as u32));
    rom[0x48..0x4C].copy_from_slice(&le32(fat_off as u32));
    rom[0x4C..0x50].copy_from_slice(&le32(24));
    rom[0x80..0x84].copy_from_slice(&le32(0x1234));
    rom.extend_from_slice(&fnt);
    rom.extend_from_slice(&fat);
    rom.extend_from_slice(&blob);
    rom.extend_from_slice(&arm9);
    rom
}

fn sample_files() -> [Vec<u8>; 3] {
    let inner = narc_bytes(&[b"RLCNdata".to_vec(), vec![1, 2, 3]], Some(&["pal", "raw"]));
    [vec![9, 9, 9], inner, narc_bytes(&[b"BMD0xx".to_vec()], None)]
}

#[test]
fn scalar_reads_check_bounds() {
    let d = [1u8, 2, 3, 4, 5];
    assert_eq!(u8_at(&d, 4), Some(5));
    assert_eq!(u8_at(&d, 5), None);
    assert_eq!(u16_at(&d, 0), Some(0x0201));
    assert_eq!(u16_at(&d, 4), None);
    assert_eq!(u32_at(&d, 1), Some(0x05040302));
    assert_eq!(u32_at(&d, 2), None);
}

#[test]
fn str_at_stops_at_nul() {
    let d = b"AB\0CD";
    assert_eq!(str_at(d, 0, 5), "AB");
    assert_eq!(str_at(d, 3, 2), "CD");
}

#[test]
fn signatures_are_detected_from_stamps() {
    assert_eq!(detect_signature(b"NARC...."), Signature::Narc);
    assert_eq!(detect_signature(b"RLCN"), Signature::Nclr);
    assert_eq!(detect_signature(b"RGCN"), Signature::Ncgr);
    assert_eq!(detect_signature(b"RECN"), Signature::Ncer);
    assert_eq!(detect_signature(b"BMD0"), Signature::Nsbmd);
    assert_eq!(detect_signature(b"BTX0"), Signature::Nsbtx);
    assert_eq!(detect_signature(b"SDAT"), Signature::Sdat);
    assert_eq!(detect_signature(b"NAR"), Signature::Unknown);
    assert_eq!(detect_signature(b"XXXX"), Signature::Unknown);
    assert!(is_narc(b"NARC"));
    assert!(!is_narc(b"RLCN"));
    assert_eq!(signature_label(Signature::Nsbmd), "nsbmd");
    assert_eq!(signature_label(Signature::Unknown), "unknown");
    assert_eq!(signature_extension(Signature::Unknown), "bin");
    assert_eq!(signature_extension(Signature::Nclr), "nclr");
}

#[test]
fn blz_passes_uncompressed_data_through() {
    assert_eq!(blz_decode(&[1, 2, 3]), vec![1, 2, 3]);
    let d = [1, 2, 3, 4, 5, 6, 7, 8, 0, 0, 0, 0];
    assert_eq!(blz_decode(&d), d.to_vec());
}

#[test]
fn blz_decodes_literals() {
    // Eight literal bytes, a flag byte of literals, then the trailer:
    // encoded length 17 (from the start), header length 8, 8 bytes of growth.
    let mut d = vec![10, 11, 12, 13, 14, 15, 16, 17, 0x00];
    d.extend_from_slice(&[17, 0, 0, 8]);
    d.extend_from_slice(&le32(8));
    let out = blz_decode(&d);
    assert_eq!(out.len(), 25);
    assert_eq!(&out[..17], &d[..]);
    assert_eq!(&out[17..], &[10, 11, 12, 13, 14, 15, 16, 17]);
}

#[test]
fn blz_decodes_a_back_reference() {
    // Read back to front: flags 0x10 (three literals, then a copy), the
    // literals 0x11, 0x22, 0x33, then a pair giving length 3, distance 3.
    let mut d = vec![0x00, 0x00, 0x33, 0x22, 0x11, 0x10];
    d.extend_from_slice(&[14, 0, 0, 8]);
    d.extend_from_slice(&le32(6));
    let out = blz_decode(&d);
    assert_eq!(out.len(), 20);
    assert_eq!(&out[..14], &d[..]);
    assert_eq!(&out[14..], &[0x33, 0x22, 0x11, 0x33, 0x22, 0x11]);
}

#[test]
fn narc_parses_entries_and_names() {
    let d = narc_bytes(&[vec![1, 2], vec![3, 4, 5]], Some(&["a.bin", "b.bin"]));
    let n = Narc::parse(&d).unwrap();
    assert_eq!(n.file_count(), 2);
    assert_eq!(n.file(0).unwrap(), &[1, 2]);
    assert_eq!(n.file(1).unwrap(), &[3, 4, 5]);
    assert!(matches!(n.file(2), Err(Error::IndexOutOfRange)));
    assert_eq!(n.name(0), Some("a.bin"));
    assert_eq!(n.name(1), Some("b.bin"));
    assert_eq!(n.name(2), None);
}

#[test]
fn narc_without_names_has_none() {
    let d = narc_bytes(&[vec![1]], None);
    let n = Narc::parse(&d).unwrap();
    assert_eq!(n.name(0), None);
}

#[test]
fn narc_errors() {
    assert!(matches!(Narc::parse(b"NARX0000000000000000"), Err(Error::BadMagic)));
    assert!(matches!(Narc::parse(b"NARC"), Err(Error::BadMagic)));
    // A block size below its header.
    let mut d = narc_bytes(&[vec![1]], None);
    d[0x14..0x18].copy_from_slice(&le32(4));
    assert!(matches!(Narc::parse(&d), Err(Error::BadBlockSize)));
    // No image block.
    let mut e = narc_bytes(&[vec![1]], None);
    e[0x0E] = 2;
    assert!(matches!(Narc::parse(&e), Err(Error::MissingImage)));
    // An entry past the image.
    let mut f = narc_bytes(&[vec![1]], None);
    f[0x20..0x24].copy_from_slice(&le32(99));
    let n = Narc::parse(&f).unwrap();
    assert!(matches!(n.file(0), Err(Error::EntryOutsideImage)));
}

#[test]
fn rom_parses_header_and_names() {
    let rom = Rom::from_bytes(rom_bytes(&sample_files())).unwrap();
    let h = rom.header();
    assert_eq!(h.title, "POKEMON ");
    assert_eq!(h.gamecode, "CPUE");
    assert_eq!(h.makercode, "01");
    assert_eq!(h.rom_size_used, 0x1234);
    assert_eq!(rom.file_count(), 3);
    let files = rom.files();
    assert_eq!(files.len(), 2);
    assert_eq!((files[0].id, files[0].path.as_str()), (0, "x.bin"));
    assert_eq!((files[1].id, files[1].path.as_str()), (1, "d/y"));
    assert!(files.windows(2).all(|w| w[0].id <= w[1].id));
    assert_eq!(rom.arm9(), &[0xAA, 0xBB, 0xCC]);
}

#[test]
fn rom_file_lookup() {
    let files = sample_files();
    let rom = Rom::from_bytes(rom_bytes(&files)).unwrap();
    assert_eq!(rom.file_by_id(0).unwrap(), &files[0][..]);
    assert_eq!(rom.id_for_path("d/y"), Some(1));
    assert_eq!(rom.id_for_path("nope"), None);
    assert_eq!(rom.file_by_path("x.bin").unwrap(), &[9, 9, 9]);
    assert!(matches!(rom.file_by_path("nope"), Err(Error::NoSuchFile)));
    assert!(matches!(rom.file_by_id(3), Err(Error::FileIdOutOfRange)));
}

#[test]
fn rom_header_errors() {
    assert!(matches!(Rom::from_bytes(vec![0; 0x100]), Err(Error::TooSmall)));
    let mut bad = rom_bytes(&sample_files());
    bad[0x4C..0x50].copy_from_slice(&le32(23));
    assert!(Rom::can_load(&bad));
    assert!(matches!(Rom::from_bytes(bad), Err(Error::InvalidFat)));
    let mut out = rom_bytes(&sample_files());
    let fat_off = u32::from_le_bytes([out[0x48], out[0x49], out[0x4A], out[0x4B]]) as usize;
    out[fat_off + 4..fat_off + 8].copy_from_slice(&le32(0xFFFF_FFF0));
    let rom = Rom::from_bytes(out).unwrap();
    assert!(matches!(rom.file_by_id(0), Err(Error::EntryOutsideRom)));
}

#[test]
fn walk_rom_names_leaves() {
    let rom = Rom::from_bytes(rom_bytes(&sample_files())).unwrap();
    let flat: Vec<(String, usize)> = walk_rom(&rom, false).into_iter().map(|(p, d)| (p, d.len())).collect();
    let paths: Vec<&str> = flat.iter().map(|(p, _)| p.as_str()).collect();
    assert_eq!(paths, vec!["x.bin", "d/y.narc", "unnamed/00002.narc"]);
    let deep: Vec<String> = walk_rom(&rom, true).into_iter().map(|(p, _)| p).collect();
    assert_eq!(deep, vec!["x.bin", "d/y/pal", "d/y/raw", "unnamed/00002.narc/00000.nsbmd"]);
}

#[test]
fn walk_narcs_visits_archives() {
    let rom = Rom::from_bytes(rom_bytes(&sample_files())).unwrap();
    let found: Vec<(String, usize)> = walk_narcs(&rom).into_iter().map(|(p, n)| (p, n.file_count())).collect();
    assert_eq!(found, vec![("d/y".to_string(), 2), ("unnamed/00002".to_string(), 1)]);
}
