use pkfs::dump::{assets_at_path, loose_models};
use pkfs::listing::list_files;
use pkfs::mapping::{manifests_from, GameEntry, KnownFile, MappingFile};
use pkfs::narc::Narc;
use pkfs::overworld::{
    detect_map, group_buffers, load_map_matrix, model_buffers, place_buildings, plan_overworld, resolve_areas, resolve_texsets,
    retexture_candidates, terrain_chunks, texset_file, LandTable,
};
use pkfs::rom::Rom;

fn le16(v: u16) -> [u8; 2] {
    v.to_le_bytes()
}

fn le32(v: u32) -> [u8; 4] {
    v.to_le_bytes()
}

fn narc_bytes(files: &[Vec<u8>]) -> Vec<u8> {
    let mut btaf = Vec::new();
    btaf.extend_from_slice(&le16(files.len() as u16));
    btaf.extend_from_slice(&le16(0));
    let mut image = Vec::new();
    for f in files {
        let start = image.len() as u32;
        image.extend_from_slice(f);
        btaf.extend_from_slice(&le32(start));
        btaf.extend_from_slice(&le32(image.len() as u32));
    }
    let blocks: Vec<(&[u8; 4], Vec<u8>)> = vec![(b"BTAF", btaf), (b"GMIF", image)];
    let mut out = Vec::new();
    out.extend_from_slice(b"NARC");
    out.extend_from_slice(&[0xFE, 0xFF, 0x00, 0x01]);
    let total: usize = 16 + blocks.iter().map(|b| b.1.len() + 8).sum::<usize>();
    out.extend_from_slice(&le32(total as u32));
    out.extend_from_slice(&le16(16));
    out.extend_from_slice(&le16(2));
    for (tag, payload) in blocks {
        out.extend_from_slice(tag);
        out.extend_from_slice(&le32((payload.len() + 8) as u32));
        out.extend_from_slice(&payload);
    }
    out
}

/// A ROM holding the given named files (paths with '/'-separated
/// directories), with game code `code` and arm9 `arm9`.
fn rom_with(code: &[u8; 4], files: &[(&str, Vec<u8>)], arm9: &[u8]) -> Vec<u8> {
    // Directories in order of first appearance; the root is 0.
    let mut dirs: Vec<String> = vec![String::new()];
    for (p, _) in files {
        let parts: Vec<&str> = p.split('/').collect();
        for k in 1..parts.len() {
            let d = parts[..k].join("/");
            if !dirs.contains(&d) {
                dirs.push(d);
            }
        }
    }
    let parent = |d: &str| -> usize {
        match d.rfind('/') {
            Some(i) => dirs.iter().position(|x| x == &d[..i]).unwrap(),
            None => 0,
        }
    };
    // File ids: each directory's files get consecutive ids.
    let mut order: Vec<(usize, String, usize)> = Vec::new();
    let mut first_id = vec![0u16; dirs.len()];
    let mut next: u16 = 0;
    for (di, d) in dirs.iter().enumerate() {
        first_id[di] = next;
        for (fi, (p, _)) in files.iter().enumerate() {
            let (dir, name) = match p.rfind('/') {
                Some(i) => (&p[..i], &p[i + 1..]),
                None => ("", &p[..]),
            };
            if dir == d {
                order.push((di, name.to_string(), fi));
                next += 1;
            }
        }
    }
    let mut subtables: Vec<Vec<u8>> = vec![Vec::new(); dirs.len()];
    for (di, name, _) in &order {
        subtables[*di].push(name.len() as u8);
        subtables[*di].extend_from_slice(name.as_bytes());
    }
    for (ci, c) in dirs.iter().enumerate().skip(1) {
        let pi = parent(c);
        let name = match c.rfind('/') {
            Some(i) => &c[i + 1..],
            None => &c[..],
        };
        subtables[pi].push(0x80 | name.len() as u8);
        subtables[pi].extend_from_slice(name.as_bytes());
        subtables[pi].extend_from_slice(&le16(0xF000 + ci as u16));
    }
    for s in subtables.iter_mut() {
        s.push(0);
    }
    let mut fnt = Vec::new();
    let mut off = (dirs.len() * 8) as u32;
    for (di, d) in dirs.iter().enumerate() {
        fnt.extend_from_slice(&le32(off));
        fnt.extend_from_slice(&le16(first_id[di]));
        if di == 0 {
            fnt.extend_from_slice(&le16(dirs.len() as u16));
        } else {
            fnt.extend_from_slice(&le16(0xF000 + parent(d) as u16));
        }
        off += subtables[di].len() as u32;
    }
    for s in &subtables {
        fnt.extend_from_slice(s);
    }
    let fnt_off = 0x200usize;
    let fat_off = fnt_off + fnt.len();
    let data_off = fat_off + order.len() * 8;
    let mut fat = Vec::new();
    let mut blob = Vec::new();
    for (_, _, fi) in &order {
        let s = (data_off + blob.len()) as u32;
        blob.extend_from_slice(&files[*fi].1);
        fat.extend_from_slice(&le32(s));
        fat.extend_from_slice(&le32((data_off + blob.len()) as u32));
    }
    let arm9_off = data_off + blob.len();
    let mut rom = vec![0u8; 0x200];
    rom[0x0C..0x10].copy_from_slice(code);
    rom[0x20..0x24].copy_from_slice(&le32(arm9_off as u32));
    rom[0x2C..0x30].copy_from_slice(&le32(arm9.len() as u32));
    rom[0x40..0x44].copy_from_slice(&le32(fnt_off as u32));
    rom[0x44..0x48].copy_from_slice(&le32(fnt.len() as u32));
    rom[0x48..0x4C].copy_from_slice(&le32(fat_off as u32));
    rom[0x4C..0x50].copy_from_slice(&le32((order.len() * 8) as u32));
    rom.extend_from_slice(&fnt);
    rom.extend_from_slice(&fat);
    rom.extend_from_slice(&blob);
    rom.extend_from_slice(arm9);
    rom
}

/// A land chunk with one building (model 3) before its "BMD0" model.
fn chunk(with_building: bool) -> Vec<u8> {
    let mut d = Vec::new();
    d.extend_from_slice(&le32(0));
    d.extend_from_slice(&le32(if with_building { 48 } else { 0 }));
    d.extend_from_slice(&le32(8));
    d.extend_from_slice(&le32(0));
    if with_building {
        for w in [3u32, 10, 20, 30, 0, 0, 0, 4096, 4096, 4096] {
            d.extend_from_slice(&le32(w));
        }
        d.extend_from_slice(&[0; 8]);
    }
    d.extend_from_slice(b"BMD0");
    d.extend_from_slice(&[9, 9, 9, 9]);
    d
}

fn hgss_rom() -> Vec<u8> {
    // A 2x1 matrix: both cells use map header 1; land chunks 0 and 1.
    let mut m = vec![2, 1, 1, 0, 0];
    m.extend_from_slice(&le16(1));
    m.extend_from_slice(&le16(1));
    m.extend_from_slice(&le16(0));
    m.extend_from_slice(&le16(1));
    let small = vec![1, 1, 0, 0, 0, 0, 0];
    let matrix = narc_bytes(&[small, m]);
    let land = narc_bytes(&[chunk(true), chunk(false)]);
    // Area 2: prop archive 5, texture set 7.
    let area = narc_bytes(&[vec![0; 4], vec![0; 4], vec![5, 0, 7, 0]]);
    let mut texsets: Vec<Vec<u8>> = (0..7).map(|_| vec![0u8; 4]).collect();
    texsets.push(b"BTX0tex!".to_vec());
    let tex = narc_bytes(&texsets);
    let build = narc_bytes(&[b"BMD0".to_vec()]);
    let prop = narc_bytes(&[b"BTX0".to_vec()]);
    // Map header 1 (24 bytes from the table start): area 2, matrix 0.
    let mut arm9 = vec![0xFF; 24];
    let mut h1 = vec![0xFF; 24];
    h1[1] = 2;
    h1[4] = 0;
    h1[5] = 0;
    for b in h1[20..].iter_mut() {
        *b = 0;
    }
    arm9.extend_from_slice(&h1);
    rom_with(
        b"IPKE",
        &[
            ("a/0/4/0", build),
            ("a/0/4/1", matrix),
            ("a/0/4/2", area),
            ("a/0/4/4", tex),
            ("a/0/6/5", land),
            ("a/0/7/0", prop),
        ],
        &arm9,
    )
}

#[test]
fn nested_paths_are_listed() {
    let rom = Rom::from_bytes(hgss_rom()).unwrap();
    let all = list_files(&rom, None, None);
    let paths: Vec<&str> = all.iter().map(|l| l.path.as_str()).collect();
    assert_eq!(paths, vec!["a/0/4/0", "a/0/4/1", "a/0/4/2", "a/0/4/4", "a/0/6/5", "a/0/7/0"]);
    let some = list_files(&rom, None, Some("/4/"));
    assert_eq!(some.len(), 4);
    assert!(some.iter().all(|l| l.role.is_none()));
}

#[test]
fn overworld_is_detected_and_resolved() {
    let rom = Rom::from_bytes(hgss_rom()).unwrap();
    let src = detect_map(&rom).unwrap();
    assert_eq!(src.matrix_path, "a/0/4/1");
    assert_eq!(src.land_path, "a/0/6/5");
    assert_eq!(src.matrix_index, 1);
    let matrix = load_map_matrix(&rom, &src.matrix_path, src.matrix_index).unwrap();
    assert_eq!((matrix.width, matrix.height), (2, 1));
    assert_eq!(matrix.land_ids, vec![0, 1]);
    let areas = resolve_areas(&rom, &src, &matrix).unwrap();
    assert_eq!(areas.get(0), Some(&2));
    assert_eq!(areas.get(1), Some(&2));
    let tex = resolve_texsets(&rom, &src, &matrix).unwrap();
    assert_eq!(tex.get(0), Some(&7));
    assert_eq!(tex.keys(), vec![0, 1]);
}

#[test]
fn chunks_and_buildings_are_planned() {
    let data = hgss_rom();
    let rom = Rom::from_bytes(data).unwrap();
    let src = detect_map(&rom).unwrap();
    let matrix = load_map_matrix(&rom, &src.matrix_path, src.matrix_index).unwrap();
    let land = Narc::parse(rom.file_by_path(&src.land_path).unwrap()).unwrap();
    let terrains = terrain_chunks(&land);
    assert_eq!(terrains.len(), 2);
    assert_eq!(terrains[1].0, 1);
    assert_eq!(terrains[1].1, b"BMD0\x09\x09\x09\x09");
    let texn = Narc::parse(rom.file_by_path(&src.texset_path).unwrap()).unwrap();
    assert_eq!(texset_file(&texn, 7).unwrap(), b"BTX0tex!");
    assert!(texset_file(&texn, 6).is_none());
    assert!(texset_file(&texn, 99).is_none());
    let (placements, groups) = place_buildings(&rom, &src, &matrix);
    assert_eq!(placements.len(), 1);
    assert_eq!(placements[0].0, 0);
    let p = placements[0].1[0];
    assert_eq!(p.glb_key, (5 << 16) | 3);
    assert_eq!(p.position, (10, 20, 30));
    assert_eq!(p.scale, (4096, 4096, 4096));
    assert_eq!(groups, vec![(5, vec![3])]);
}

#[test]
fn no_overworld_for_other_games() {
    let mut data = hgss_rom();
    data[0x0C..0x10].copy_from_slice(b"IRBO");
    let rom = Rom::from_bytes(data).unwrap();
    assert!(detect_map(&rom).is_none());
}

#[test]
fn decode_buffers_are_assembled() {
    let rom = Rom::from_bytes(hgss_rom()).unwrap();
    let src = detect_map(&rom).unwrap();
    let land = Narc::parse(rom.file_by_path(&src.land_path).unwrap()).unwrap();
    let texn = Narc::parse(rom.file_by_path(&src.texset_path).unwrap()).unwrap();
    let terrains = terrain_chunks(&land);
    let bufs = group_buffers(&terrains, &vec![1, 9, 0], &texn, 7);
    assert_eq!(bufs.len(), 3);
    assert_eq!(bufs[0], b"BMD0\x09\x09\x09\x09");
    assert_eq!(bufs[2], b"BTX0tex!");
    let untextured = group_buffers(&terrains, &vec![0], &texn, 6);
    assert_eq!(untextured.len(), 1);
    let mut nb: LandTable<Vec<u16>> = LandTable::new();
    nb.insert(0, vec![6, 7, 99, 7]);
    let c = retexture_candidates(&nb, 0, &texn);
    assert_eq!(c.len(), 2);
    assert_eq!(c[0], b"BTX0tex!");
    assert!(retexture_candidates(&nb, 1, &texn).is_empty());
}

fn ntr_file(magic: &[u8; 4], tag: &[u8; 4], payload: Vec<u8>) -> Vec<u8> {
    let mut f = Vec::new();
    f.extend_from_slice(magic);
    f.extend_from_slice(&[0xFF, 0xFE, 0x00, 0x01]);
    f.extend_from_slice(&le32((16 + 8 + payload.len()) as u32));
    f.extend_from_slice(&le16(16));
    f.extend_from_slice(&le16(1));
    f.extend_from_slice(tag);
    f.extend_from_slice(&le32((payload.len() + 8) as u32));
    f.extend_from_slice(&payload);
    f
}

fn sprite_narc() -> Vec<u8> {
    let mut pal = Vec::new();
    pal.extend_from_slice(&le32(3));
    pal.extend_from_slice(&le32(0));
    pal.extend_from_slice(&le32(4));
    pal.extend_from_slice(&le32(0x10));
    pal.extend_from_slice(&le16(0));
    pal.extend_from_slice(&le16(0x001F));
    let mut chr = Vec::new();
    chr.extend_from_slice(&le16(1));
    chr.extend_from_slice(&le16(1));
    chr.extend_from_slice(&le32(3));
    chr.extend_from_slice(&le32(0));
    chr.extend_from_slice(&[0, 0, 0, 0]);
    chr.extend_from_slice(&le32(32));
    chr.extend_from_slice(&le32(0x18));
    let mut tile = vec![0u8; 32];
    tile[0] = 1;
    chr.extend_from_slice(&tile);
    narc_bytes(&[ntr_file(b"RLCN", b"TTLP", pal), ntr_file(b"RGCN", b"RAHC", chr), b"BMD0model".to_vec(), b"BTX0tex".to_vec()])
}

fn assets_rom() -> Vec<u8> {
    rom_with(
        b"CPUE",
        &[
            ("g/sprites.narc", sprite_narc()),
            ("m/model.nsbmd", b"BMD0standalone".to_vec()),
            ("m/empty.bin", Vec::new()),
            ("m/plain.bin", vec![1, 2, 3]),
        ],
        &[0, 0, 0, 0, 0, 0, 0, 0],
    )
}

#[test]
fn assets_at_path_encodes_sprites_and_lists_3d_files() {
    let rom = Rom::from_bytes(assets_rom()).unwrap();
    let ms = manifests_from(&vec![]);
    let (a, job) = assets_at_path(&rom, &ms, "g/sprites.narc", false);
    assert!(a.models.is_empty());
    assert_eq!(a.images.len(), 1);
    assert_eq!(a.images[0].0, "00001");
    assert_eq!(&a.images[0].1[..8], &[137, 80, 78, 71, 13, 10, 26, 10]);
    assert_eq!(job.buffers, vec![b"BMD0model".to_vec(), b"BTX0tex".to_vec()]);
    assert!(job.textures_if_no_models);
    let (b, single) = assets_at_path(&rom, &ms, "m/model.nsbmd", false);
    assert!(b.images.is_empty());
    assert_eq!(single.buffers, vec![b"BMD0standalone".to_vec()]);
    let (c, none) = assets_at_path(&rom, &ms, "m/plain.bin", false);
    assert!(c.images.is_empty() && none.buffers.is_empty());
    let (d, missing) = assets_at_path(&rom, &ms, "nope", false);
    assert!(d.images.is_empty() && missing.buffers.is_empty());
}

#[test]
fn loose_models_outside_archives() {
    let rom = Rom::from_bytes(assets_rom()).unwrap();
    let found = loose_models(&rom);
    assert_eq!(found.len(), 1);
    assert_eq!(found[0].0, "m/model");
}

#[test]
fn listing_shows_documented_roles() {
    let rom = Rom::from_bytes(assets_rom()).unwrap();
    let file = KnownFile {
        path: "g/sprites.narc".to_string(),
        label: "Sprites".to_string(),
        kind: "pokemon-sprite".to_string(),
        description: "front sprites".to_string(),
    };
    let games = vec![GameEntry { id: "pt".to_string(), code_prefix: "CPU".to_string(), display_name: "Platinum".to_string() }];
    let ms = manifests_from(&vec![MappingFile { games, files: vec![file] }]);
    let lines = list_files(&rom, Some(&ms[0]), Some("sprites"));
    assert_eq!(lines.len(), 1);
    assert_eq!(lines[0].role, Some(("pokemon-sprite".to_string(), "front sprites".to_string())));
    let all = list_files(&rom, Some(&ms[0]), None);
    assert_eq!(all.len(), 4);
    assert!(all.iter().filter(|l| l.role.is_some()).count() == 1);
}

#[test]
fn overworld_plan_reaches_the_decoder() {
    let rom = Rom::from_bytes(hgss_rom()).unwrap();
    let plan = plan_overworld(&rom).unwrap();
    assert_eq!(plan.source.land_path, "a/0/6/5");
    assert_eq!(plan.matrix.land_ids, vec![0, 1]);
    assert_eq!(plan.chunks.terrains.len(), 2);
    let groups = plan.chunks.groups.as_ref().unwrap();
    assert_eq!(groups.len(), 1);
    assert_eq!(groups[0].0, 7);
    assert_eq!(groups[0].1, vec![0, 1]);
    assert_eq!(groups[0].2.len(), 3);
    assert_eq!(groups[0].2[2], b"BTX0tex!");
    let nb = plan.chunks.neighbours.as_ref().unwrap();
    assert_eq!(nb.get(0), Some(&vec![7]));
    assert_eq!(nb.get(1), Some(&vec![7]));
    assert_eq!(plan.placements.len(), 1);
    assert_eq!(plan.models.len(), 1);
    assert_eq!(plan.models[0].0, 5);
    assert_eq!(plan.models[0].1, vec![3]);
    assert!(plan.models[0].2.is_none());
    let build = plan.build.as_ref().unwrap();
    let prop = plan.prop_textures.as_ref().unwrap();
    let bufs = model_buffers(build, prop, 0, &vec![0]).unwrap();
    assert_eq!(bufs, vec![&b"BMD0"[..], &b"BTX0"[..]]);
    assert!(model_buffers(build, prop, 1, &vec![0, 3]).is_none());
    let mut other = hgss_rom();
    other[0x0C..0x10].copy_from_slice(b"IRBO");
    assert!(plan_overworld(&Rom::from_bytes(other).unwrap()).is_none());
}
