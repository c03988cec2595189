use pkfs::map::{Building, map_header_areas, parse_buildings, parse_map_matrix, terrain_model, MapHeaderLayout, MapMatrix};
use pkfs::overworld::{
    building_key, is_textured, map_paths, model_groups, neighbour_texsets, texset_groups, LandTable, MapGame,
};

fn le16(v: u16) -> [u8; 2] {
    v.to_le_bytes()
}

fn le32(v: u32) -> [u8; 4] {
    v.to_le_bytes()
}

/// A 2x2 matrix named "M" with header, altitude and land layers.
fn matrix_bytes() -> Vec<u8> {
    let mut d = vec![2, 2, 1, 1, 1, b'M'];
    for h in [1u16, 2, 0xFFFF, 1] {
        d.extend_from_slice(&le16(h));
    }
    d.extend_from_slice(&[5, 6, 7, 8]);
    for l in [10u16, 11, 0xFFFF, 10] {
        d.extend_from_slice(&le16(l));
    }
    d
}

#[test]
fn map_matrix_layers() {
    let m = parse_map_matrix(&matrix_bytes()).unwrap();
    assert_eq!((m.width, m.height), (2, 2));
    assert_eq!(m.name, "M");
    assert_eq!(m.headers, vec![1, 2, 0xFFFF, 1]);
    assert_eq!(m.altitudes, vec![5, 6, 7, 8]);
    assert_eq!(m.land_ids, vec![10, 11, 0xFFFF, 10]);
    assert_eq!(m.at(1, 0), Some(11));
    assert_eq!(m.at(0, 1), None);
    assert_eq!(m.at(2, 0), None);
}

#[test]
fn map_matrix_without_optional_layers() {
    let mut d = vec![1, 1, 0, 0, 0];
    d.extend_from_slice(&le16(42));
    let m = parse_map_matrix(&d).unwrap();
    assert!(m.headers.is_empty() && m.altitudes.is_empty());
    assert_eq!(m.land_ids, vec![42]);
    assert!(parse_map_matrix(&d[..6]).is_none());
    assert!(parse_map_matrix(&[1, 1, 0]).is_none());
}

#[test]
fn map_header_table_is_located() {
    // Filler bytes, then headers 0..=2 whose area ids are 10, 11, 12.
    let mut arm9 = vec![0xFF; 4];
    for k in 0..3u8 {
        let mut e = vec![0xFF; 24];
        e[0] = 10 + k;
        e[2] = 0;
        e[3] = 0;
        arm9.extend_from_slice(&e);
    }
    let layout = MapHeaderLayout { stride: 24, area_off: 0, matrix_off: 2 };
    assert_eq!(map_header_areas(&arm9, &[1, 2], layout), Some(vec![10, 11, 12]));
    assert_eq!(map_header_areas(&arm9, &[], layout), None);
    assert_eq!(map_header_areas(&arm9, &[9], layout), None);
}

/// A land chunk with the given building entries before a "BMD0" model.
fn chunk(entries: &[[u32; 10]]) -> Vec<u8> {
    let mut d = Vec::new();
    d.extend_from_slice(&le32(0));
    d.extend_from_slice(&le32((entries.len() * 48) as u32));
    d.extend_from_slice(&le32(8));
    d.extend_from_slice(&le32(0));
    for e in entries {
        for w in e {
            d.extend_from_slice(&le32(*w));
        }
        d.extend_from_slice(&[0; 8]);
    }
    d.extend_from_slice(b"BMD0");
    d.extend_from_slice(&[1, 2, 3, 4]);
    d
}

#[test]
fn terrain_model_is_the_bmd0_section() {
    let c = chunk(&[]);
    assert_eq!(terrain_model(&c).unwrap(), b"BMD0\x01\x02\x03\x04");
    assert!(terrain_model(&c[..10]).is_none());
    let mut no_model = c.clone();
    no_model[16] = b'X';
    assert!(terrain_model(&no_model).is_none());
}

#[test]
fn buildings_walk_back_from_the_model() {
    let one = 4096u32;
    let a = [3, 1, 2, 0xFFFF_FFFF, 0, 0, 0, one, one, one];
    let b = [7, 0, 0, 0, 0, 0, 0, 2 * one, one, 64 * one];
    let bs = parse_buildings(&chunk(&[a, b]));
    assert_eq!(bs.len(), 2);
    assert_eq!(bs[0].model_id, 3);
    assert_eq!(bs[0].position, (1, 2, -1));
    assert_eq!(bs[0].scale, (4096, 4096, 4096));
    assert_eq!(bs[1].model_id, 7);
    assert_eq!(bs[1].scale, (8192, 4096, 262144));
    // An implausible entry stops the walk: only those after it are kept.
    let bad = [5000, 0, 0, 0, 0, 0, 0, one, one, one];
    let kept = parse_buildings(&chunk(&[a, bad, b]));
    assert_eq!(kept.len(), 1);
    assert_eq!(kept[0].model_id, 7);
    let too_big = [1, 0, 0, 0, 0, 0, 0, 65 * one, one, one];
    assert!(parse_buildings(&chunk(&[too_big])).is_empty());
    assert!(parse_buildings(&[0; 8]).is_empty());
}

#[test]
fn map_paths_by_game() {
    let h = map_paths("IPKE").unwrap();
    assert_eq!(h.matrix, "a/0/4/1");
    assert_eq!(h.land, "a/0/6/5");
    assert_eq!((h.layout.area_off, h.layout.matrix_off), (1, 4));
    let d = map_paths("ADAE").unwrap();
    assert_eq!(d.land, "fielddata/land_data/land_data_release.narc");
    assert_eq!((d.layout.area_off, d.layout.matrix_off), (0, 2));
    let p = map_paths("CPUJ").unwrap();
    assert_eq!(p.land, "fielddata/land_data/land_data.narc");
    assert!(map_paths("IRBO").is_none());
    assert!(map_paths("IP").is_none());
    assert!(MapGame::Platinum != MapGame::DiamondPearl);
}

#[test]
fn land_table_reads_back_writes() {
    let mut t: LandTable<usize> = LandTable::new();
    assert!(t.get(5).is_none());
    t.insert(5, 50);
    t.insert(9, 90);
    t.insert(5, 55);
    assert_eq!(t.get(5), Some(&55));
    assert_eq!(t.get(9), Some(&90));
    assert!(t.get(6).is_none());
    assert_eq!(t.keys(), vec![5, 9]);
}

#[test]
fn textured_glbs_hold_png_images() {
    assert!(is_textured(b"....\"mimeType\":\"image/png\"..."));
    assert!(!is_textured(b"image/pn"));
    assert!(!is_textured(b""));
}

#[test]
fn building_keys_pack_archive_and_model() {
    assert_eq!(building_key(0, 0), 0);
    assert_eq!(building_key(3, 7), 0x0003_0007);
    assert_eq!(building_key(0xFFFF, 0xFFFF), 0xFFFF_FFFF);
    assert_ne!(building_key(1, 0), building_key(0, 1));
}

#[test]
fn chunks_grouped_by_texture_set() {
    let mut tex: LandTable<u16> = LandTable::new();
    tex.insert(3, 20);
    tex.insert(1, 20);
    tex.insert(2, 10);
    tex.insert(4, 10);
    let model = [0u8; 4];
    // Chunk 4 has no terrain.
    let terrains: Vec<(u32, &[u8])> = vec![(1, &model[..]), (2, &model[..]), (3, &model[..])];
    let groups = texset_groups(&tex, &terrains);
    assert_eq!(groups, vec![(10, vec![2]), (20, vec![1, 3])]);
}

#[test]
fn building_models_grouped_by_prop_archive() {
    let b = |id: u16| Building { model_id: id, position: (0, 0, 0), rotation: (0, 0, 0), scale: (4096, 4096, 4096) };
    let chunks = vec![(7u16, vec![b(3), b(1)]), (2u16, vec![b(5)]), (7u16, vec![b(3), b(9)])];
    assert_eq!(model_groups(&chunks), vec![(2, vec![5]), (7, vec![1, 3, 9])]);
}

fn grid(width: u32, height: u32, land_ids: Vec<u16>) -> MapMatrix {
    MapMatrix { width, height, name: String::new(), land_ids, altitudes: vec![], headers: vec![] }
}

#[test]
fn neighbour_texture_sets_ranked_by_frequency() {
    let mut tex: LandTable<u16> = LandTable::new();
    tex.insert(1, 10);
    tex.insert(2, 20);
    tex.insert(3, 30);
    let row = grid(3, 1, vec![1, 2, 3]);
    let n = neighbour_texsets(&row, &tex);
    assert_eq!(n.get(2), Some(&vec![10, 30]));
    assert_eq!(n.get(1), Some(&vec![20]));
    assert_eq!(n.get(3), Some(&vec![20]));
    assert!(n.get(4).is_none());
    // Chunk 5 borders chunk 2 on two sides and chunk 3 on one: 20 first.
    let square = grid(3, 2, vec![2, 5, 3, 0xFFFF, 2, 0xFFFF]);
    let m = neighbour_texsets(&square, &tex);
    assert_eq!(m.get(5), Some(&vec![20, 30]));
    // Empty cells neither count nor get a list.
    assert!(m.get(0xFFFF).is_none());
}
