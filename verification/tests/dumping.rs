use pkfs::cg::SpriteCipher;
use pkfs::dump::{encode_png, group_layout, narc_contents, sanitize, sprite_cipher, strip_ext, Assets, DumpReport, GroupLayout};
use pkfs::image::Image;
use pkfs::mapping::{manifest_for_gamecode, manifests_from, GameEntry, GameManifest, KnownFile, MappingFile};
use pkfs::narc::Narc;
use pkfs::sprites::{collect_sprites, sprite_files_readable, sprites_fit_exec};

fn le16(v: u16) -> [u8; 2] {
    v.to_le_bytes()
}

fn le32(v: u32) -> [u8; 4] {
    v.to_le_bytes()
}

fn narc_bytes(files: &[Vec<u8>]) -> Vec<u8> {
    let mut btaf = Vec::new();
    btaf.extend_from_slice(&le16(files.len() as u16));
    btaf.extend_from_slice(&le16(0));
    let mut image = Vec::new();
    for f in files {
        let start = image.len() as u32;
        image.extend_from_slice(f);
        btaf.extend_from_slice(&le32(start));
        btaf.extend_from_slice(&le32(image.len() as u32));
    }
    let blocks: Vec<(&[u8; 4], Vec<u8>)> = vec![(b"BTAF", btaf), (b"GMIF", image)];
    let mut out = Vec::new();
    out.extend_from_slice(b"NARC");
    out.extend_from_slice(&[0xFE, 0xFF, 0x00, 0x01]);
    let total: usize = 16 + blocks.iter().map(|b| b.1.len() + 8).sum::<usize>();
    out.extend_from_slice(&le32(total as u32));
    out.extend_from_slice(&le16(16));
    out.extend_from_slice(&le16(2));
    for (tag, payload) in blocks {
        out.extend_from_slice(tag);
        out.extend_from_slice(&le32((payload.len() + 8) as u32));
        out.extend_from_slice(&payload);
    }
    out
}

fn ntr_file(magic: &[u8; 4], tag: &[u8; 4], payload: Vec<u8>) -> Vec<u8> {
    let mut f = Vec::new();
    f.extend_from_slice(magic);
    f.extend_from_slice(&[0xFF, 0xFE, 0x00, 0x01]);
    f.extend_from_slice(&le32((16 + 8 + payload.len()) as u32));
    f.extend_from_slice(&le16(16));
    f.extend_from_slice(&le16(1));
    f.extend_from_slice(tag);
    f.extend_from_slice(&le32((payload.len() + 8) as u32));
    f.extend_from_slice(&payload);
    f
}

fn nclr(colors: &[u16]) -> Vec<u8> {
    let mut p = Vec::new();
    p.extend_from_slice(&le32(3));
    p.extend_from_slice(&le32(0));
    p.extend_from_slice(&le32((colors.len() * 2) as u32));
    p.extend_from_slice(&le32(0x10));
    for c in colors {
        p.extend_from_slice(&le16(*c));
    }
    ntr_file(b"RLCN", b"TTLP", p)
}

/// A one-tile 4bpp character set whose first pixel has colour 1.
fn ncgr() -> Vec<u8> {
    let mut data = vec![0u8; 32];
    data[0] = 0x01;
    let mut p = Vec::new();
    p.extend_from_slice(&le16(1));
    p.extend_from_slice(&le16(1));
    p.extend_from_slice(&le32(3));
    p.extend_from_slice(&le32(0));
    p.extend_from_slice(&[0, 0, 0, 0]);
    p.extend_from_slice(&le32(32));
    p.extend_from_slice(&le32(0x18));
    p.extend_from_slice(&data);
    ntr_file(b"RGCN", b"RAHC", p)
}

/// A cell bank with one cell of one 8x8 object at the origin.
fn ncer() -> Vec<u8> {
    let mut p = Vec::new();
    p.extend_from_slice(&le16(1));
    p.extend_from_slice(&[0, 0]);
    p.extend_from_slice(&le32(0x18));
    p.extend_from_slice(&le32(0));
    p.extend_from_slice(&[0; 12]);
    p.extend_from_slice(&le16(1));
    p.extend_from_slice(&le16(0));
    p.extend_from_slice(&le32(0));
    p.extend_from_slice(&le16(0));
    p.extend_from_slice(&le16(0));
    p.extend_from_slice(&le16(0));
    ntr_file(b"RECN", b"KBEC", p)
}

#[test]
fn sanitize_keeps_safe_characters() {
    assert_eq!(sanitize("abc-DEF_1.2"), "abc-DEF_1.2");
    assert_eq!(sanitize("a b/c"), "a_b_c");
    assert_eq!(sanitize(""), "unnamed");
    assert_eq!(sanitize("é!"), "__");
    // Sanitizing twice changes nothing.
    assert_eq!(sanitize(&sanitize("x y")), sanitize("x y"));
}

#[test]
fn strip_ext_drops_the_last_extension() {
    assert_eq!(strip_ext("a/b.narc"), "a/b");
    assert_eq!(strip_ext("a.b.c"), "a.b");
    assert_eq!(strip_ext("noext"), "noext");
    assert_eq!(strip_ext(".hidden"), ".hidden");
    assert_eq!(strip_ext("dir.d/file"), "dir");
}

#[test]
fn group_layout_collapses_single_items() {
    assert!(matches!(group_layout(&vec![], "png"), GroupLayout::Empty));
    assert!(matches!(group_layout(&vec!["a".to_string()], "png"), GroupLayout::Single));
    let names = vec!["a".to_string(), "a".to_string(), "a b".to_string(), "a_".to_string()];
    match group_layout(&names, "png") {
        GroupLayout::Many(files) => {
            assert_eq!(files, vec!["a.png", "a_.png", "a_b.png", "a__.png"]);
        },
        _ => panic!("expected several files"),
    }
}

#[test]
fn group_files_are_distinct() {
    let names: Vec<String> = vec!["x", "x", "x", "", "unnamed"].into_iter().map(String::from).collect();
    match group_layout(&names, "bin") {
        GroupLayout::Many(files) => {
            assert_eq!(files, vec!["x.bin", "x_.bin", "x__.bin", "unnamed.bin", "unnamed_.bin"]);
            for i in 0..files.len() {
                for j in i + 1..files.len() {
                    assert_ne!(files[i], files[j]);
                }
            }
        },
        _ => panic!("expected several files"),
    }
}

#[test]
fn report_and_assets_start_empty() {
    let r = DumpReport::default();
    assert_eq!((r.models, r.textures, r.sprites, r.bins), (0, 0, 0, 0));
    let a = Assets::default();
    assert!(a.models.is_empty() && a.images.is_empty());
}

#[test]
fn narc_contents_sorts_sub_files() {
    let d = narc_bytes(&[b"BMD0....".to_vec(), b"BTX0".to_vec(), b"RLCN".to_vec(), vec![1, 2], b"NARC".to_vec(), b"BCA0".to_vec()]);
    let n = Narc::parse(&d).unwrap();
    let c = narc_contents(&n);
    assert_eq!(c.nitro3d, vec![0, 1, 5]);
    assert!(c.has_nsbtx);
    assert!(c.has_2d);
    assert_eq!(c.unknown, vec![3]);
}

fn manifests() -> Vec<GameManifest> {
    let file = KnownFile {
        path: "a/0/0/4".to_string(),
        label: "Pokemon sprites".to_string(),
        kind: "pokemon-sprite".to_string(),
        description: String::new(),
    };
    let games = vec![GameEntry { id: "hgss".to_string(), code_prefix: "IPK".to_string(), display_name: "HeartGold".to_string() },
        GameEntry { id: "ss".to_string(), code_prefix: "IPG".to_string(), display_name: "SoulSilver".to_string() }];
    manifests_from(&vec![MappingFile { games, files: vec![file] }])
}

#[test]
fn manifests_cover_each_game() {
    let ms = manifests();
    assert_eq!(ms.len(), 2);
    assert_eq!(ms[1].display_name, "SoulSilver");
    assert_eq!(ms[1].files.len(), 1);
    // The region byte is ignored.
    let a = manifest_for_gamecode(&ms, "IPKE").unwrap();
    let b = manifest_for_gamecode(&ms, "IPKJ").unwrap();
    assert_eq!(a.id, b.id);
    assert!(manifest_for_gamecode(&ms, "IP").is_none());
    assert!(manifest_for_gamecode(&ms, "CPUE").is_none());
    assert_eq!(a.find("a/0/0/4").unwrap().kind, "pokemon-sprite");
    assert!(a.find("a/0/0/5").is_none());
}

#[test]
fn sprite_cipher_by_game_and_path() {
    let ms = manifests();
    assert!(sprite_cipher(&ms, "IPKE", "a/0/0/4") == SpriteCipher::FrontToBack);
    assert!(sprite_cipher(&ms, "IPKE", "a/0/0/5") == SpriteCipher::Unencrypted);
    assert!(sprite_cipher(&ms, "ADAE", "poketool/pokegra/pokegra.narc") == SpriteCipher::BackToFront);
    assert!(sprite_cipher(&ms, "APAE", "x/pokegra") == SpriteCipher::BackToFront);
    assert!(sprite_cipher(&ms, "CPUE", "x/pokegra") == SpriteCipher::FrontToBack);
    assert!(sprite_cipher(&ms, "CPUE", "x/other") == SpriteCipher::Unencrypted);
}

#[test]
fn encode_png_writes_signature_and_header() {
    let mut img = Image::new(2, 3);
    img.set(0, 0, [255, 0, 0, 255]);
    let png = encode_png(&img);
    assert_eq!(&png[..8], &[137, 80, 78, 71, 13, 10, 26, 10]);
    assert_eq!(&png[8..16], &[0, 0, 0, 13, b'I', b'H', b'D', b'R']);
    assert_eq!(&png[16..24], &[0, 0, 0, 2, 0, 0, 0, 3]);
    assert_eq!(&png[24..29], &[8, 6, 0, 0, 0]);
    assert!(png.len() > 29 + img.data.len() / 100);
    // An empty image is written as 1x1.
    let empty = encode_png(&Image::new(0, 0));
    assert_eq!(&empty[16..24], &[0, 0, 0, 1, 0, 0, 0, 1]);
}

#[test]
fn collect_sprites_plain_sheets() {
    let d = narc_bytes(&[nclr(&[0, 0x001F]), ncgr()]);
    let n = Narc::parse(&d).unwrap();
    let out = collect_sprites(&n, false, SpriteCipher::Unencrypted);
    assert_eq!(out.len(), 1);
    assert_eq!(out[0].0, "00001");
    let img = &out[0].1;
    assert_eq!((img.width, img.height), (8, 8));
    assert_eq!(&img.data[0..4], &[255, 0, 0, 255]);
    assert_eq!(&img.data[4..8], &[0, 0, 0, 0]);
}

#[test]
fn collect_sprites_needs_palette_and_characters() {
    let d = narc_bytes(&[ncgr()]);
    let n = Narc::parse(&d).unwrap();
    assert!(collect_sprites(&n, false, SpriteCipher::Unencrypted).is_empty());
}

#[test]
fn collect_sprites_assembles_cells() {
    let d = narc_bytes(&[nclr(&[0, 0x03E0]), ncgr(), ncer()]);
    let n = Narc::parse(&d).unwrap();
    let out = collect_sprites(&n, false, SpriteCipher::Unencrypted);
    assert_eq!(out.len(), 1);
    assert_eq!(out[0].0, "00002_cell000");
    assert_eq!(&out[0].1.data[0..4], &[0, 255, 0, 255]);
    // Raw mode skips cell assembly.
    let raw = collect_sprites(&n, true, SpriteCipher::Unencrypted);
    assert_eq!(raw.len(), 1);
    assert_eq!(raw[0].0, "00001");
}

#[test]
fn collect_sprites_pairs_pokegra_shinies() {
    // Character data whose words decrypt to zero keeps the sheet blank; the
    // pairing is what matters here.
    let d = narc_bytes(&[ncgr(), ncgr(), nclr(&[0, 0x001F]), nclr(&[0, 0x7C00])]);
    let n = Narc::parse(&d).unwrap();
    let out = collect_sprites(&n, false, SpriteCipher::FrontToBack);
    let names: Vec<&str> = out.iter().map(|(s, _)| s.as_str()).collect();
    assert_eq!(names, vec!["00000", "00001_shiny"]);
    // Palettes before the characters pair with nothing.
    let e = narc_bytes(&[nclr(&[0, 0x001F]), ncgr()]);
    let en = Narc::parse(&e).unwrap();
    assert!(collect_sprites(&en, false, SpriteCipher::FrontToBack).is_empty());
}

#[test]
fn sprite_archives_checked_before_decoding() {
    let d = narc_bytes(&[nclr(&[0, 0x001F]), ncgr(), ncer()]);
    let n = Narc::parse(&d).unwrap();
    assert!(sprite_files_readable(&n));
    assert!(sprites_fit_exec(&n, false, SpriteCipher::Unencrypted));
    assert!(sprites_fit_exec(&n, true, SpriteCipher::FrontToBack));
    // A palette block too short for its header is refused.
    let short = ntr_file(b"RLCN", b"TTLP", vec![0; 4]);
    let bad = narc_bytes(&[short, ncgr()]);
    let bn = Narc::parse(&bad).unwrap();
    assert!(!sprite_files_readable(&bn));
    // A cell bank with a huge mapping type cannot be assembled.
    let mut huge = ncer();
    huge[16 + 8 + 0x08] = 200;
    let hd = narc_bytes(&[nclr(&[0, 0x001F]), ncgr(), huge]);
    let hn = Narc::parse(&hd).unwrap();
    assert!(sprite_files_readable(&hn));
    assert!(!sprites_fit_exec(&hn, false, SpriteCipher::Unencrypted));
    assert!(sprites_fit_exec(&hn, true, SpriteCipher::Unencrypted));
}
