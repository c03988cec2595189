use pkfs::cell::{assemble_cell, cell_fits_exec};
use pkfs::cg::{decrypt_char_data, parse_ncgr, parse_nclr, Ncgr, Nclr, SpriteCipher};
use pkfs::error::Error;
use pkfs::image::{bgr555, extend5to8, find_ntr_block, Image};
use pkfs::ncer::{parse_ncer, NcerCell, Oam};
use pkfs::sheet::render_ncgr_sheet;

fn le16(v: u16) -> [u8; 2] {
    v.to_le_bytes()
}

fn le32(v: u32) -> [u8; 4] {
    v.to_le_bytes()
}

/// A 2D NTR file: 16-byte header, then the given blocks back to back.
fn ntr_file(magic: &[u8; 4], blocks: &[(&[u8; 4], Vec<u8>)]) -> Vec<u8> {
    let mut f = Vec::new();
    f.extend_from_slice(magic);
    f.extend_from_slice(&[0xFF, 0xFE, 0x00, 0x01]);
    let total: usize = 16 + blocks.iter().map(|b| b.1.len() + 8).sum::<usize>();
    f.extend_from_slice(&le32(total as u32));
    f.extend_from_slice(&le16(16));
    f.extend_from_slice(&le16(blocks.len() as u16));
    for (tag, payload) in blocks {
        f.extend_from_slice(*tag);
        f.extend_from_slice(&le32((payload.len() + 8) as u32));
        f.extend_from_slice(payload);
    }
    f
}

/// An NCLR holding the given BGR555 colours (4bpp: 16 per palette).
fn nclr_file(colors: &[u16], depth: u32) -> Vec<u8> {
    let mut p = Vec::new();
    p.extend_from_slice(&le32(depth)); // 0x08
    p.extend_from_slice(&le32(0)); // 0x0C
    p.extend_from_slice(&le32((colors.len() * 2) as u32)); // 0x10
    p.extend_from_slice(&le32(0x10)); // 0x14
    for c in colors {
        p.extend_from_slice(&le16(*c));
    }
    ntr_file(b"RLCN", &[(b"TTLP", p)])
}

/// An NCGR with the given tile counts, 4bpp when `four`, and character data.
fn ncgr_file(tiles_y: u16, tiles_x: u16, four: bool, scanned: bool, data: &[u8]) -> Vec<u8> {
    let mut p = Vec::new();
    p.extend_from_slice(&le16(tiles_y)); // 0x08
    p.extend_from_slice(&le16(tiles_x)); // 0x0A
    p.extend_from_slice(&le32(if four { 3 } else { 4 })); // 0x0C
    p.extend_from_slice(&le32(0)); // 0x10
    p.extend_from_slice(&[if scanned { 1 } else { 0 }, 0, 0, 0]); // 0x14
    p.extend_from_slice(&le32(data.len() as u32)); // 0x18
    p.extend_from_slice(&le32(0x18)); // 0x1C
    p.extend_from_slice(data);
    ntr_file(b"RGCN", &[(b"RAHC", p)])
}

#[test]
fn extend5to8_spreads_five_bits() {
    assert_eq!(extend5to8(0), 0);
    assert_eq!(extend5to8(31), 255);
    assert_eq!(extend5to8(16), 132);
}

#[test]
fn bgr555_decodes_channels() {
    assert_eq!(bgr555(0x001F), [255, 0, 0, 255]);
    assert_eq!(bgr555(0x03E0), [0, 255, 0, 255]);
    assert_eq!(bgr555(0x7C00), [0, 0, 255, 255]);
    assert_eq!(bgr555(0x0000), [0, 0, 0, 255]);
}

#[test]
fn image_new_is_transparent_and_set_touches_one_pixel() {
    let mut img = Image::new(3, 2);
    assert_eq!(img.data.len(), 3 * 2 * 4);
    assert!(img.data.iter().all(|&b| b == 0));
    img.set(1, 1, [1, 2, 3, 4]);
    let i = (1 * 3 + 1) * 4;
    assert_eq!(&img.data[i..i + 4], &[1, 2, 3, 4]);
    let changed = img.data.iter().filter(|&&b| b != 0).count();
    assert_eq!(changed, 4);
    // Outside the image: ignored.
    img.set(3, 0, [9, 9, 9, 9]);
    img.set(0, 2, [9, 9, 9, 9]);
    assert_eq!(img.data.iter().filter(|&&b| b != 0).count(), 4);
}

#[test]
fn image_is_empty_when_a_side_is_zero() {
    assert!(Image::new(0, 5).is_empty());
    assert!(Image::new(5, 0).is_empty());
    assert!(!Image::new(1, 1).is_empty());
}

#[test]
fn find_ntr_block_walks_blocks() {
    let f = ntr_file(b"RLCN", &[(b"ABCD", vec![1, 2, 3]), (b"TTLP", vec![7; 4])]);
    let b = find_ntr_block(&f, b'T', b'T', b'L', b'P').unwrap();
    assert_eq!(&b[..4], b"TTLP");
    assert_eq!(b.len(), 12);
    assert!(find_ntr_block(&f, b'X', b'X', b'X', b'X').is_none());
    // A block whose size runs past the file stops the walk.
    let mut bad = f.clone();
    bad[20] = 0xFF;
    assert!(find_ntr_block(&bad, b'T', b'T', b'L', b'P').is_none());
}

#[test]
fn parse_nclr_reads_colours() {
    let f = nclr_file(&[0x0000, 0x001F, 0x7C00], 3);
    let p = parse_nclr(&f).unwrap();
    assert_eq!(p.colors_per_palette, 16);
    assert_eq!(p.colors, vec![[0, 0, 0, 255], [255, 0, 0, 255], [0, 0, 255, 255]]);
    assert_eq!(p.color(0, 1), [255, 0, 0, 255]);
    assert_eq!(p.color(1, 0), [0, 0, 0, 0]);
    let p8 = parse_nclr(&nclr_file(&[0x001F], 4)).unwrap();
    assert_eq!(p8.colors_per_palette, 256);
}

#[test]
fn parse_nclr_without_block_fails() {
    let f = ntr_file(b"RLCN", &[(b"ABCD", vec![0; 4])]);
    assert!(matches!(parse_nclr(&f), Err(Error::MissingBlock)));
}

#[test]
fn parse_ncgr_reads_header_and_data() {
    let data: Vec<u8> = (0..32).collect();
    let f = ncgr_file(1, 1, true, false, &data);
    let g = parse_ncgr(&f).unwrap();
    assert_eq!(g.bit_depth, 4);
    assert!(!g.scanned);
    assert_eq!(g.tiles_x, 1);
    assert_eq!(g.tiles_y, 1);
    assert_eq!(g.char_data, data);
    assert_eq!(g.bytes_per_tile(), 32);
    // Low nibble for even x, high nibble for odd x.
    assert_eq!(g.tile_pixel(0, 0, 0), 0);
    assert_eq!(g.tile_pixel(0, 2, 0), 1);
    assert_eq!(g.tile_pixel(0, 3, 1), (5 >> 4) as u8);
    assert_eq!(g.tile_pixel(1, 0, 0), 0);
    let neg = parse_ncgr(&ncgr_file(0xFFFF, 0xFFFF, false, true, &[1, 2])).unwrap();
    assert_eq!(neg.tiles_x, -1);
    assert_eq!(neg.tiles_y, -1);
    assert_eq!(neg.bit_depth, 8);
    assert!(neg.scanned);
    assert_eq!(neg.bytes_per_tile(), 64);
}

#[test]
fn parse_ncgr_without_block_fails() {
    let f = ntr_file(b"RGCN", &[]);
    assert!(matches!(parse_ncgr(&f), Err(Error::MissingBlock)));
}

#[test]
fn decrypt_front_to_back_xors_with_lcg() {
    let mut d = vec![0x34, 0x12, 0x00, 0x00, 0xAA];
    decrypt_char_data(&mut d, SpriteCipher::FrontToBack);
    // First word XORed with itself; second with the next generator step.
    let k1 = 0x1234u32.wrapping_mul(1103515245).wrapping_add(24691);
    let w1 = (k1 & 0xFFFF) as u16;
    assert_eq!(d, vec![0, 0, (w1 & 0xFF) as u8, (w1 >> 8) as u8, 0xAA]);
}

#[test]
fn decrypt_back_to_front_starts_at_last_word() {
    let mut d = vec![0x00, 0x00, 0x34, 0x12];
    decrypt_char_data(&mut d, SpriteCipher::BackToFront);
    let k1 = 0x1234u32.wrapping_mul(1103515245).wrapping_add(24691);
    let w1 = (k1 & 0xFFFF) as u16;
    assert_eq!(d, vec![(w1 & 0xFF) as u8, (w1 >> 8) as u8, 0, 0]);
}

#[test]
fn decrypt_unencrypted_leaves_data() {
    let mut d = vec![1, 2, 3, 4];
    decrypt_char_data(&mut d, SpriteCipher::Unencrypted);
    assert_eq!(d, vec![1, 2, 3, 4]);
    let mut one = vec![7];
    decrypt_char_data(&mut one, SpriteCipher::FrontToBack);
    assert_eq!(one, vec![7]);
}

fn palette() -> Nclr {
    let mut colors = vec![[0, 0, 0, 255]; 32];
    colors[1] = [255, 0, 0, 255];
    colors[2] = [0, 255, 0, 255];
    colors[17] = [0, 0, 255, 255];
    Nclr { colors_per_palette: 16, colors }
}

#[test]
fn render_sheet_tiled_4bpp() {
    // One tile whose first pixel uses colour 1, the rest colour 0.
    let mut data = vec![0u8; 32];
    data[0] = 0x21; // px0 = 1, px1 = 2
    let g = Ncgr { bit_depth: 4, scanned: false, tiles_x: 1, tiles_y: 1, char_data: data };
    let img = render_ncgr_sheet(&g, &palette(), 0, true);
    assert_eq!((img.width, img.height), (8, 8));
    assert_eq!(&img.data[0..4], &[255, 0, 0, 255]);
    assert_eq!(&img.data[4..8], &[0, 255, 0, 255]);
    // Colour 0 is transparent.
    assert_eq!(&img.data[8..12], &[0, 0, 0, 0]);
    // Palette bank 1 selects colours 16..32.
    let img1 = render_ncgr_sheet(&g, &palette(), 1, false);
    assert_eq!(&img1.data[0..4], &[0, 0, 255, 255]);
    assert_eq!(&img1.data[8..12], &[0, 0, 0, 255]);
}

#[test]
fn render_sheet_near_square_layout() {
    // Four tiles and no declared width: a 2x2 grid.
    let g = Ncgr { bit_depth: 4, scanned: false, tiles_x: 0, tiles_y: 0, char_data: vec![0; 4 * 32] };
    let img = render_ncgr_sheet(&g, &palette(), 0, true);
    assert_eq!((img.width, img.height), (16, 16));
    // Three tiles: round(sqrt 3) = 2 columns, 2 rows.
    let g3 = Ncgr { bit_depth: 4, scanned: false, tiles_x: 0, tiles_y: 0, char_data: vec![0; 3 * 32] };
    let img3 = render_ncgr_sheet(&g3, &palette(), 0, true);
    assert_eq!((img3.width, img3.height), (16, 16));
    // Five tiles: 2 columns, 3 rows.
    let g5 = Ncgr { bit_depth: 8, scanned: false, tiles_x: 0, tiles_y: 0, char_data: vec![0; 5 * 64] };
    let img5 = render_ncgr_sheet(&g5, &palette(), 0, true);
    assert_eq!((img5.width, img5.height), (16, 24));
}

#[test]
fn render_sheet_scanned() {
    // Scanned 8bpp data fills rows left to right.
    let mut data = vec![0u8; 64];
    data[9] = 2;
    let g = Ncgr { bit_depth: 8, scanned: true, tiles_x: 1, tiles_y: 1, char_data: data };
    let img = render_ncgr_sheet(&g, &palette(), 0, true);
    let i = (1 * 8 + 1) * 4;
    assert_eq!(&img.data[i..i + 4], &[0, 255, 0, 255]);
}

fn oam(x: i32, y: i32, w: u32, h: u32, char_name: u32) -> Oam {
    Oam { x, y, width_tiles: w, height_tiles: h, char_name, palette: 0, h_flip: false, v_flip: false, color256: false }
}

#[test]
fn assemble_cell_places_tiles() {
    let mut data = vec![0u8; 64];
    data[0] = 0x01; // tile 0, pixel (0,0) = colour 1
    data[32] = 0x02; // tile 1, pixel (0,0) = colour 2
    let g = Ncgr { bit_depth: 4, scanned: false, tiles_x: 2, tiles_y: 1, char_data: data };
    let cell = NcerCell { oams: vec![oam(-8, 0, 2, 1, 0)], bounds: None };
    let img = assemble_cell(&cell, &g, &palette(), 0);
    assert_eq!((img.width, img.height), (16, 8));
    assert_eq!(&img.data[0..4], &[255, 0, 0, 255]);
    let i = 8 * 4;
    assert_eq!(&img.data[i..i + 4], &[0, 255, 0, 255]);
    // Colour 0 stays transparent.
    assert_eq!(&img.data[4..8], &[0, 0, 0, 0]);
}

#[test]
fn assemble_cell_flips() {
    let mut data = vec![0u8; 32];
    data[0] = 0x01;
    let g = Ncgr { bit_depth: 4, scanned: false, tiles_x: 1, tiles_y: 1, char_data: data };
    let mut o = oam(0, 0, 1, 1, 0);
    o.h_flip = true;
    o.v_flip = true;
    let cell = NcerCell { oams: vec![o], bounds: None };
    let img = assemble_cell(&cell, &g, &palette(), 0);
    let i = (7 * 8 + 7) * 4;
    assert_eq!(&img.data[i..i + 4], &[255, 0, 0, 255]);
    assert_eq!(&img.data[0..4], &[0, 0, 0, 0]);
}

#[test]
fn assemble_empty_cell_gives_empty_image() {
    let g = Ncgr { bit_depth: 4, scanned: false, tiles_x: 1, tiles_y: 1, char_data: vec![0; 32] };
    let cell = NcerCell { oams: vec![], bounds: None };
    assert!(assemble_cell(&cell, &g, &palette(), 0).is_empty());
    let flat = NcerCell { oams: vec![oam(0, 0, 1, 1, 0)], bounds: Some((0, 0, 0, 8)) };
    assert!(assemble_cell(&flat, &g, &palette(), 0).is_empty());
}

/// A KBEC block with one cell of one 8x8 object at (-4, -4).
fn ncer_file(extended: bool) -> Vec<u8> {
    let mut p = Vec::new();
    p.extend_from_slice(&le16(1)); // 0x08 cell count
    p.extend_from_slice(&[if extended { 1 } else { 0 }, 0]); // 0x0A
    p.extend_from_slice(&le32(0x18)); // 0x0C
    p.extend_from_slice(&le32(2)); // 0x10 mapping type
    p.extend_from_slice(&[0; 12]); // to 0x20
    // cell record
    p.extend_from_slice(&le16(1)); // oam count
    p.extend_from_slice(&le16(0));
    p.extend_from_slice(&le32(0));
    if extended {
        p.extend_from_slice(&le16(4)); // max_x
        p.extend_from_slice(&le16(4)); // max_y
        p.extend_from_slice(&le16((-4i16) as u16)); // min_x
        p.extend_from_slice(&le16((-4i16) as u16)); // min_y
    }
    // OAM: y = -4, square; x = -4 (9 bits), size 0, flips; char 5, palette 3.
    let a0: u16 = 0xFC;
    let a1: u16 = 0x1FC | (1 << 12);
    let a2: u16 = 5 | (3 << 12);
    p.extend_from_slice(&le16(a0));
    p.extend_from_slice(&le16(a1));
    p.extend_from_slice(&le16(a2));
    ntr_file(b"RECN", &[(b"KBEC", p)])
}

#[test]
fn parse_ncer_decodes_objects() {
    let n = parse_ncer(&ncer_file(false)).unwrap();
    assert_eq!(n.mapping_type, 2);
    assert_eq!(n.cells.len(), 1);
    let c = &n.cells[0];
    assert!(c.bounds.is_none());
    assert_eq!(c.oams.len(), 1);
    let o = &c.oams[0];
    assert_eq!((o.x, o.y), (-4, -4));
    assert_eq!((o.width_tiles, o.height_tiles), (1, 1));
    assert_eq!(o.char_name, 5);
    assert_eq!(o.palette, 3);
    assert!(o.h_flip && !o.v_flip && !o.color256);
    let e = parse_ncer(&ncer_file(true)).unwrap();
    assert_eq!(e.cells[0].bounds, Some((-4, -4, 4, 4)));
}

#[test]
fn parse_ncer_without_block_fails() {
    assert!(matches!(parse_ncer(&ntr_file(b"RECN", &[])), Err(Error::MissingBlock)));
}

#[test]
fn parse_ncer_reads_a_short_block_without_cells() {
    // A KBEC block of 0x11 bytes: no cells, mapping type 3 at 0x10.
    let mut p = Vec::new();
    p.extend_from_slice(&le16(0)); // 0x08 cell count
    p.extend_from_slice(&[0, 0]); // 0x0A
    p.extend_from_slice(&le32(0)); // 0x0C
    p.push(3); // 0x10 mapping type
    let n = parse_ncer(&ntr_file(b"RECN", &[(b"KBEC", p)])).unwrap();
    assert_eq!(n.mapping_type, 3);
    assert!(n.cells.is_empty());
}

#[test]
fn assemble_cell_boundary_shifted_past_the_word_is_zero() {
    // 32 << 59 leaves a 64-bit word: the character name then starts at tile 0.
    let mut data = vec![0u8; 64];
    data[0] = 0x01;
    let g = Ncgr { bit_depth: 4, scanned: false, tiles_x: 2, tiles_y: 1, char_data: data };
    let cell = NcerCell { oams: vec![oam(0, 0, 1, 1, 1)], bounds: None };
    assert!(cell_fits_exec(&cell, &g, &palette(), 59));
    assert!(!cell_fits_exec(&cell, &g, &palette(), 64));
    let img = assemble_cell(&cell, &g, &palette(), 59);
    assert_eq!(&img.data[0..4], &[255, 0, 0, 255]);
    // With mapping type 0 the same object starts at tile 1 (32 bytes / 32).
    let shifted = assemble_cell(&cell, &g, &palette(), 0);
    assert_eq!(&shifted.data[0..4], &[0, 0, 0, 0]);
}

#[test]
fn render_sheet_scanned_4bpp_reads_low_nibble_first() {
    let mut data = vec![0u8; 32];
    data[0] = 0x21; // pixel 0 = 1, pixel 1 = 2
    let g = Ncgr { bit_depth: 4, scanned: true, tiles_x: 1, tiles_y: 1, char_data: data };
    let img = render_ncgr_sheet(&g, &palette(), 0, true);
    assert_eq!(&img.data[0..4], &[255, 0, 0, 255]);
    assert_eq!(&img.data[4..8], &[0, 255, 0, 255]);
    assert_eq!(&img.data[8..12], &[0, 0, 0, 0]);
}
