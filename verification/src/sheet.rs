//! Rendering NCGR character sets as flat tile sheets.
use crate::cg::{palette_color, tile_byte, tile_bytes, tile_value, CharModel, Ncgr, Nclr, PaletteModel};
use crate::image::{clear, lemma_pixel_in_range, pixel_at, pixel_offset, put4, Image};
use vstd::arithmetic::div_mod::{lemma_fundamental_div_mod, lemma_fundamental_div_mod_converse};
use vstd::prelude::*;

verus! {

/// Smallest `k >= start` with `k * k + k >= n`.
pub open spec fn root_from(n: int, k: int) -> int
    decreases n - k,
{
    if k >= n || k * k + k >= n { k } else { root_from(n, k + 1) }
}

/// `n`'s square root rounded to the nearest integer: the smallest `k` with
/// `k * k + k >= n` (√n is never exactly halfway between integers).
pub open spec fn rounded_root(n: int) -> int {
    root_from(n, 0)
}

/// Number of whole tiles in the character data.
pub open spec fn tile_count(g: CharModel) -> int {
    g.data.len() as int / tile_bytes(g.bit_depth)
}

/// Tile columns of the sheet: the declared count, else a near-square layout.
pub open spec fn sheet_cols(g: CharModel) -> int {
    if g.tiles_x > 0 {
        g.tiles_x as int
    } else if rounded_root(tile_count(g)) >= 1 {
        rounded_root(tile_count(g))
    } else {
        1
    }
}

/// Tile rows of the sheet: the declared count, else enough rows for every
/// tile, kept as a 32-bit count (its low 32 bits).
pub open spec fn sheet_rows(g: CharModel) -> int {
    if g.tiles_y > 0 {
        g.tiles_y as int
    } else {
        let c = sheet_cols(g);
        (tile_count(g) / c + if tile_count(g) % c != 0 { 1int } else { 0int }) % 0x1_0000_0000
    }
}

/// Pixel positions that scanned character data covers: two per byte at 4 bits
/// per pixel, one otherwise.
pub open spec fn scan_total(g: CharModel) -> int {
    if g.bit_depth == 4 { g.data.len() * 2int } else { g.data.len() as int }
}

/// Palette index at position `q` of scanned character data.
pub open spec fn scan_value(g: CharModel, q: int) -> u8 {
    if g.bit_depth == 4 {
        if q % 2 == 0 { g.data[q / 2] % 16 } else { g.data[q / 2] / 16 }
    } else {
        g.data[q]
    }
}

/// The last of the positions before `done` that is numbered `p` when positions
/// are taken as 32-bit pixel numbers (modulo 2^32).
pub open spec fn scan_source(done: int, p: int) -> int {
    p + ((done - 1 - p) / 0x1_0000_0000) * 0x1_0000_0000
}

/// The palette index of pixel number `p` once the positions before `done` of
/// scanned data are drawn (a later position overwrites an earlier one with the
/// same 32-bit number).
pub open spec fn scan_index(g: CharModel, done: int, p: int) -> Option<u8> {
    if 0 <= p < 0x1_0000_0000 && p < done { Some(scan_value(g, scan_source(done, p))) } else { None }
}

/// The palette index shown at pixel (x, y) of the sheet, if that pixel is covered.
pub open spec fn sheet_index(g: CharModel, x: int, y: int) -> Option<u8> {
    let cd = g.data;
    if g.scanned {
        scan_index(g, scan_total(g), y * (sheet_cols(g) * 8) + x)
    } else {
        let t = (y / 8) * sheet_cols(g) + x / 8;
        if t < tile_count(g) { Some(tile_value(cd, g.bit_depth, t, x % 8, y % 8)) } else { None }
    }
}

/// The colour of palette index `idx`: sub-palette `bank` at 4 bits per pixel,
/// the whole palette otherwise; index 0 optionally transparent.
pub open spec fn sheet_color(g: CharModel, pal: PaletteModel, bank: int, transparent0: bool, idx: u8) -> Seq<u8> {
    if idx == 0 && transparent0 {
        clear()
    } else if g.bit_depth == 4 {
        palette_color(pal.colors, bank * pal.per_palette + idx)
    } else {
        palette_color(pal.colors, idx as int)
    }
}

/// The colour of sheet pixel (x, y).
pub open spec fn sheet_pixel(g: CharModel, pal: PaletteModel, bank: int, transparent0: bool, x: int, y: int) -> Seq<u8> {
    match sheet_index(g, x, y) {
        Some(idx) => sheet_color(g, pal, bank, transparent0, idx),
        None => clear(),
    }
}

/// Whether the sheet for `g` can be built in memory.
pub open spec fn sheet_fits(g: CharModel, pal: PaletteModel, bank: int) -> bool {
    &&& sheet_cols(g) * 8 <= u32::MAX
    &&& sheet_rows(g) * 8 <= u32::MAX
    &&& (sheet_cols(g) * 8) * (sheet_rows(g) * 8) * 4 <= usize::MAX
    &&& g.scanned ==> scan_total(g) <= usize::MAX + 1
    &&& !g.scanned && tile_count(g) > 0 ==> ((tile_count(g) - 1) / sheet_cols(g)) * 8 + 7 <= u32::MAX
    &&& bank * pal.per_palette + 256 <= usize::MAX
}

/// Every pixel of `img` matches `want` where `drawn` holds, and is clear elsewhere.
pub open spec fn painted(img: Image, want: spec_fn(int, int) -> Seq<u8>, drawn: spec_fn(int, int) -> bool) -> bool {
    &&& img.wf()
    &&& forall|x: int, y: int|
        0 <= x < img.width && 0 <= y < img.height ==> #[trigger] pixel_at(img.data@, img.width as int, x, y)
            == if drawn(x, y) { want(x, y) } else { clear() }
}

/// Writing one pixel changes that pixel only.
pub proof fn lemma_put_pixel(s: Seq<u8>, w: int, h: int, x0: int, y0: int, c: Seq<u8>, x: int, y: int)
    requires
        s.len() == w * h * 4,
        c.len() == 4,
        0 <= x0 < w,
        0 <= y0 < h,
        0 <= x < w,
        0 <= y < h,
    ensures
        pixel_at(put4(s, pixel_offset(w, x0, y0), c), w, x, y) == if x == x0 && y == y0 { c } else { pixel_at(s, w, x, y) },
{
    lemma_pixel_in_range(w, h, x0, y0);
    lemma_pixel_in_range(w, h, x, y);
    let o = pixel_offset(w, x, y);
    let o0 = pixel_offset(w, x0, y0);
    let t = put4(s, o0, c);
    if x == x0 && y == y0 {
        assert(t.subrange(o, o + 4) =~= c);
    } else {
        assert(y * w + x != y0 * w + x0) by {
            if y * w + x == y0 * w + x0 {
                lemma_fundamental_div_mod_converse(y * w + x, w, y, x);
                lemma_fundamental_div_mod_converse(y0 * w + x0, w, y0, x0);
            }
        }
        assert(o + 4 <= o0 || o0 + 4 <= o) by (nonlinear_arith)
            requires
                o == (y * w + x) * 4,
                o0 == (y0 * w + x0) * 4,
                y * w + x != y0 * w + x0,
        ;
        assert(t.subrange(o, o + 4) =~= s.subrange(o, o + 4));
    }
}

/// A new image is clear everywhere.
pub proof fn lemma_new_clear(img: Image, x: int, y: int)
    requires
        img.wf(),
        img.data@ == Seq::new((img.width * img.height * 4) as nat, |i: int| 0u8),
        0 <= x < img.width,
        0 <= y < img.height,
    ensures
        pixel_at(img.data@, img.width as int, x, y) == clear(),
{
    lemma_pixel_in_range(img.width as int, img.height as int, x, y);
    let o = pixel_offset(img.width as int, x, y);
    assert(img.data@.subrange(o, o + 4) =~= clear());
}

/// Sets pixel (x, y) of a painted image, extending what is drawn by that pixel.
fn paint(img: &mut Image, x: u32, y: u32, rgba: [u8; 4],
    Ghost(want): Ghost<spec_fn(int, int) -> Seq<u8>>,
    Ghost(before): Ghost<spec_fn(int, int) -> bool>,
    Ghost(after): Ghost<spec_fn(int, int) -> bool>)
    requires
        painted(*old(img), want, before),
        x < old(img).width && y < old(img).height ==> rgba@ == want(x as int, y as int),
        forall|a: int, b: int| 0 <= a < old(img).width && 0 <= b < old(img).height ==>
            #[trigger] after(a, b) == (before(a, b) || (a == x && b == y)),
    ensures
        painted(*final(img), want, after),
        final(img).width == old(img).width,
        final(img).height == old(img).height,
{
    let ghost s = img.data@;
    img.set(x, y, rgba);
    proof {
        let w = img.width as int;
        let h = img.height as int;
        assert forall|a: int, b: int| 0 <= a < w && 0 <= b < h implies #[trigger] pixel_at(img.data@, w, a, b)
            == if after(a, b) { want(a, b) } else { clear() } by {
            if x < w && y < h {
                lemma_put_pixel(s, w, h, x as int, y as int, rgba@, a, b);
            }
        }
    }
}

fn rounded_root_exec(n: usize) -> (k: usize)
    requires
        n * 32 <= usize::MAX,
    ensures
        k == rounded_root(n as int),
{
    let mut k: u64 = 0;
    let ghost goal = root_from(n as int, 0);
    while (k as usize) < n && k * k + k < n as u64
        invariant
            k <= n,
            k * k + k <= n + 2 * k,
            n * 32 <= usize::MAX,
            goal == root_from(n as int, k as int),
        decreases n - k,
    {
        proof {
            assert((k + 1) * (k + 1) + (k + 1) <= n + 2 * (k + 1)) by (nonlinear_arith)
                requires
                    k * k + k < n,
            ;
        }
        k = k + 1;
    }
    k as usize
}

/// Render an NCGR as a flat tile sheet. A near-square layout is used when the
/// header does not declare a width.
pub fn render_ncgr_sheet(ncgr: &Ncgr, nclr: &Nclr, palette_bank: usize, color0_transparent: bool) -> (img: Image)
    requires
        sheet_fits(ncgr@, nclr@, palette_bank as int),
    ensures
        img.wf(),
        img.width == sheet_cols(ncgr@) * 8,
        img.height == sheet_rows(ncgr@) * 8,
        forall|x: int, y: int|
            0 <= x < img.width && 0 <= y < img.height ==> #[trigger] pixel_at(img.data@, img.width as int, x, y)
                == sheet_pixel(ncgr@, nclr@, palette_bank as int, color0_transparent, x, y),
{
    let bytes_per_tile = ncgr.bytes_per_tile();
    let px_per_byte: usize = if ncgr.bit_depth == 4 { 2 } else { 1 };
    let num_tiles = ncgr.char_data.len() / bytes_per_tile;

    let mut tw: i32 = ncgr.tiles_x;
    let mut th: i32 = ncgr.tiles_y;
    if tw <= 0 {
        proof {
            assert(num_tiles * 32 <= usize::MAX) by (nonlinear_arith)
                requires
                    num_tiles == (ncgr@.data.len() as int) / (bytes_per_tile as int),
                    bytes_per_tile >= 32,
                    ncgr@.data.len() <= usize::MAX,
            ;
        }
        let r = rounded_root_exec(num_tiles);
        proof {
            assert(sheet_cols(ncgr@) * 8 <= u32::MAX);
        }
        tw = if r >= 1 { r as i32 } else { 1 };
    }
    if th <= 0 {
        let c = tw as usize;
        let rows = num_tiles / c + if num_tiles % c != 0 { 1usize } else { 0usize };
        let low = (rows as u64 % 0x1_0000_0000u64) as u32;
        th = low as i32;
        assert((low as i32) as u32 == low) by (bit_vector);
    }
    assert(tw == sheet_cols(ncgr@));
    assert(th as u32 == sheet_rows(ncgr@));
    let width = (tw as u32) * 8;
    let height = (th as u32) * 8;
    let mut img = Image::new(width, height);
    let ghost want = |x: int, y: int| sheet_pixel(ncgr@, nclr@, palette_bank as int, color0_transparent, x, y);
    proof {
        assert forall|x: int, y: int| 0 <= x < img.width && 0 <= y < img.height implies
            #[trigger] pixel_at(img.data@, img.width as int, x, y) == clear() by {
            lemma_new_clear(img, x, y);
        }
    }

    if ncgr.scanned {
        let n = ncgr.char_data.len();
        let mut i: usize = 0;
        while i < n
            invariant
                i <= n,
                n == ncgr@.data.len(),
                ncgr.scanned,
                img.width == width,
                img.height == height,
                width == tw * 8,
                tw == sheet_cols(ncgr@),
                tw >= 1,
                px_per_byte == if ncgr.bit_depth == 4 { 2int } else { 1int },
                sheet_fits(ncgr@, nclr@, palette_bank as int),
                scan_shows(img, ncgr@, nclr@, palette_bank as int, color0_transparent, i * px_per_byte),
            decreases n - i,
        {
            let byte = ncgr.char_data[i];
            proof {
                assert(i * px_per_byte + px_per_byte <= scan_total(ncgr@)) by (nonlinear_arith)
                    requires
                        i < n,
                        n == ncgr@.data.len(),
                        px_per_byte == if ncgr.bit_depth == 4 { 2int } else { 1int },
                        scan_total(ncgr@) == if ncgr.bit_depth == 4 { n * 2 } else { n as int },
                ;
            }
            let base = i * px_per_byte;
            if ncgr.bit_depth == 4 {
                proof {
                    assert((2 * i) % 2 == 0 && (2 * i) / 2 == i && (2 * i + 1) % 2 == 1 && (2 * i + 1) / 2 == i) by (nonlinear_arith);
                }
                emit_scanned(&mut img, ncgr, nclr, palette_bank, color0_transparent, base, byte % 16);
                emit_scanned(&mut img, ncgr, nclr, palette_bank, color0_transparent, base + 1, byte / 16);
            } else {
                emit_scanned(&mut img, ncgr, nclr, palette_bank, color0_transparent, base, byte);
            }
            assert((i + 1) * px_per_byte == base + px_per_byte) by (nonlinear_arith)
                requires
                    base == i * px_per_byte,
            ;
            i = i + 1;
        }
        assert(n * px_per_byte == scan_total(ncgr@));
        return img;
    }

    let ghost tile_of = |x: int, y: int| (y / 8) * (tw as int) + x / 8;
    let mut t: usize = 0;
    while t < num_tiles
        invariant
            t <= num_tiles,
            !ncgr.scanned,
            num_tiles == tile_count(ncgr@),
            img.width == width,
            img.height == height,
            width == tw * 8,
            height == sheet_rows(ncgr@) * 8,
            tw == sheet_cols(ncgr@),
            tw >= 1,
            sheet_fits(ncgr@, nclr@, palette_bank as int),
            want == (|x: int, y: int| sheet_pixel(ncgr@, nclr@, palette_bank as int, color0_transparent, x, y)),
            tile_of == (|x: int, y: int| (y / 8) * (tw as int) + x / 8),
            painted(img, want, |x: int, y: int| tile_of(x, y) < t),
        decreases num_tiles - t,
    {
        proof {
            vstd::arithmetic::div_mod::lemma_div_is_ordered(t as int, num_tiles - 1, tw as int);
            vstd::arithmetic::div_mod::lemma_div_pos_is_pos(t as int, tw as int);
        }
        let tile_x = (t % tw as usize) as u32;
        let tile_y = (t / tw as usize) as u32;
        let mut py: u32 = 0;
        while py < 8
            invariant
                py <= 8,
                t < num_tiles,
                !ncgr.scanned,
                num_tiles == tile_count(ncgr@),
                img.width == width,
                img.height == height,
                width == tw * 8,
                height == sheet_rows(ncgr@) * 8,
                tw == sheet_cols(ncgr@),
                tw >= 1,
                tile_x == (t as int) % (tw as int),
                tile_y == (t as int) / (tw as int),
                tile_y * 8 + 7 <= u32::MAX,
                sheet_fits(ncgr@, nclr@, palette_bank as int),
                want == (|x: int, y: int| sheet_pixel(ncgr@, nclr@, palette_bank as int, color0_transparent, x, y)),
                tile_of == (|x: int, y: int| (y / 8) * (tw as int) + x / 8),
                painted(img, want, |x: int, y: int| tile_of(x, y) < t || (tile_of(x, y) == t && y % 8 < py)),
            decreases 8 - py,
        {
            let mut px: u32 = 0;
            while px < 8
                invariant
                    px <= 8,
                    py < 8,
                    t < num_tiles,
                    !ncgr.scanned,
                    num_tiles == tile_count(ncgr@),
                    img.width == width,
                    img.height == height,
                    width == tw * 8,
                    height == sheet_rows(ncgr@) * 8,
                    tw == sheet_cols(ncgr@),
                    tw >= 1,
                    tile_x == (t as int) % (tw as int),
                    tile_y == (t as int) / (tw as int),
                    tile_y * 8 + 7 <= u32::MAX,
                    sheet_fits(ncgr@, nclr@, palette_bank as int),
                    want == (|x: int, y: int| sheet_pixel(ncgr@, nclr@, palette_bank as int, color0_transparent, x, y)),
                    tile_of == (|x: int, y: int| (y / 8) * (tw as int) + x / 8),
                    painted(img, want, |x: int, y: int| tile_of(x, y) < t
                        || (tile_of(x, y) == t && (y % 8 < py || (y % 8 == py && x % 8 < px)))),
                decreases 8 - px,
            {
                proof {
                    lemma_tile_coords(t as int, tw as int, tile_x as int, tile_y as int, px as int, py as int);
                    assert(tile_byte(ncgr.bit_depth, t as int, px as int, py as int) < ncgr@.data.len()) by (nonlinear_arith)
                        requires
                            t < num_tiles,
                            num_tiles == (ncgr@.data.len() as int) / tile_bytes(ncgr.bit_depth),
                            tile_bytes(ncgr.bit_depth) == if ncgr.bit_depth == 4 { 32int } else { 64int },
                            tile_byte(ncgr.bit_depth, t as int, px as int, py as int) == if ncgr.bit_depth == 4 {
                                t * 32 + py * 4 + px / 2
                            } else {
                                t * 64 + py * 8 + px
                            },
                            px < 8,
                            py < 8,
                    ;
                    assert(ncgr@.data.len() == ncgr.char_data.len());
                }
                let idx = ncgr.tile_pixel(t, px, py);
                let rgba = sheet_rgba(ncgr, nclr, palette_bank, color0_transparent, idx);
                let x = tile_x * 8 + px;
                let y = tile_y * 8 + py;
                let ghost before = |a: int, b: int| tile_of(a, b) < t
                    || (tile_of(a, b) == t && (b % 8 < py || (b % 8 == py && a % 8 < px)));
                let ghost after = |a: int, b: int| tile_of(a, b) < t
                    || (tile_of(a, b) == t && (b % 8 < py || (b % 8 == py && a % 8 < px + 1)));
                proof {
                    assert forall|a: int, b: int| 0 <= a < img.width && 0 <= b < img.height implies
                        #[trigger] after(a, b) == (before(a, b) || (a == x && b == y)) by {
                        lemma_tile_of_pixel(a, b, tw as int, t as int, tile_x as int, tile_y as int);
                    }
                }
                paint(&mut img, x, y, rgba, Ghost(want), Ghost(before), Ghost(after));
                px = px + 1;
            }
            py = py + 1;
        }
        t = t + 1;
    }
    img
}

proof fn lemma_tile_coords(t: int, tw: int, tx: int, ty: int, px: int, py: int)
    requires
        tw >= 1,
        0 <= t,
        tx == t % tw,
        ty == t / tw,
        0 <= px < 8,
        0 <= py < 8,
    ensures
        (ty * 8 + py) / 8 == ty,
        (ty * 8 + py) % 8 == py,
        (tx * 8 + px) / 8 == tx,
        (tx * 8 + px) % 8 == px,
        ty * tw + tx == t,
        0 <= tx < tw,
        0 <= ty,
{
    lemma_fundamental_div_mod(t, tw);
    vstd::arithmetic::div_mod::lemma_mod_bound(t, tw);
    vstd::arithmetic::div_mod::lemma_div_pos_is_pos(t, tw);
    lemma_fundamental_div_mod_converse(ty * 8 + py, 8, ty, py);
    lemma_fundamental_div_mod_converse(tx * 8 + px, 8, tx, px);
    assert(ty * tw == tw * ty) by (nonlinear_arith);
}

proof fn lemma_tile_of_pixel(a: int, b: int, tw: int, t: int, tx: int, ty: int)
    requires
        tw >= 1,
        0 <= a < tw * 8,
        0 <= b,
        0 <= t,
        tx == t % tw,
        ty == t / tw,
    ensures
        ((b / 8) * tw + a / 8 == t) == (b / 8 == ty && a / 8 == tx),
{
    lemma_fundamental_div_mod(t, tw);
    vstd::arithmetic::div_mod::lemma_mod_bound(t, tw);
    assert(a / 8 < tw) by {
        vstd::arithmetic::div_mod::lemma_div_is_ordered(a, tw * 8 - 1, 8);
        lemma_fundamental_div_mod_converse(tw * 8 - 1, 8, tw - 1, 7);
    }
    vstd::arithmetic::div_mod::lemma_div_pos_is_pos(a, 8);
    vstd::arithmetic::div_mod::lemma_div_pos_is_pos(b, 8);
    if (b / 8) * tw + a / 8 == t {
        lemma_fundamental_div_mod_converse(t, tw, b / 8, a / 8);
    }
    assert(ty * tw == tw * ty) by (nonlinear_arith);
}

/// The colour for palette index `idx` on the sheet.
fn sheet_rgba(ncgr: &Ncgr, nclr: &Nclr, bank: usize, transparent0: bool, idx: u8) -> (c: [u8; 4])
    requires
        bank * nclr.colors_per_palette + 256 <= usize::MAX,
    ensures
        c@ == sheet_color(ncgr@, nclr@, bank as int, transparent0, idx),
{
    if idx == 0 && transparent0 {
        let c = [0u8, 0u8, 0u8, 0u8];
        assert(c@ =~= clear());
        c
    } else if ncgr.bit_depth == 4 {
        nclr.color(bank, idx as usize)
    } else {
        nclr.color(0, idx as usize)
    }
}

/// Every pixel of `img` shows what the positions before `done` of the scanned
/// data give it.
pub open spec fn scan_shows(img: Image, g: CharModel, pal: PaletteModel, bank: int, transparent0: bool, done: int) -> bool {
    &&& img.wf()
    &&& forall|x: int, y: int|
        0 <= x < img.width && 0 <= y < img.height ==> #[trigger] pixel_at(img.data@, img.width as int, x, y)
            == match scan_index(g, done, y * img.width + x) {
                Some(idx) => sheet_color(g, pal, bank, transparent0, idx),
                None => clear(),
            }
}

/// Drawing position `pos` changes pixel number `pos mod 2^32` only, which
/// then shows that position.
proof fn lemma_scan_step(g: CharModel, pos: int, p: int, wrapped: int)
    requires
        0 <= pos,
        0 <= p,
        wrapped == pos % 0x1_0000_0000,
    ensures
        scan_index(g, pos + 1, p) == if p == wrapped { Some(scan_value(g, pos)) } else { scan_index(g, pos, p) },
{
    let m: int = 0x1_0000_0000;
    lemma_fundamental_div_mod(pos, m);
    vstd::arithmetic::div_mod::lemma_mod_bound(pos, m);
    if p == wrapped {
        lemma_fundamental_div_mod_converse(pos - p, m, pos / m, 0);
    } else if p < m && p < pos {
        let a = pos - 1 - p;
        lemma_fundamental_div_mod(a, m);
        vstd::arithmetic::div_mod::lemma_mod_bound(a, m);
        if a % m == m - 1 {
            lemma_fundamental_div_mod_converse(pos, m, a / m + 1, p);
        }
        lemma_fundamental_div_mod_converse(a + 1, m, a / m, a % m + 1);
    } else if p < m && p == pos {
        lemma_fundamental_div_mod_converse(pos, m, 0, pos);
    }
}

/// Draws position `pos` of scanned data, palette index `idx`, at its 32-bit
/// pixel number (row-major over the sheet); numbers past the sheet are skipped.
fn emit_scanned(img: &mut Image, ncgr: &Ncgr, nclr: &Nclr, bank: usize, transparent0: bool, pos: usize, idx: u8)
    requires
        ncgr.scanned,
        old(img).width == sheet_cols(ncgr@) * 8,
        old(img).width >= 8,
        sheet_fits(ncgr@, nclr@, bank as int),
        idx == scan_value(ncgr@, pos as int),
        scan_shows(*old(img), ncgr@, nclr@, bank as int, transparent0, pos as int),
    ensures
        final(img).width == old(img).width,
        final(img).height == old(img).height,
        scan_shows(*final(img), ncgr@, nclr@, bank as int, transparent0, pos + 1),
{
    let w = img.width;
    let h = img.height;
    let rgba = sheet_rgba(ncgr, nclr, bank, transparent0, idx);
    let wrapped = ((pos as u64) % 0x1_0000_0000u64) as u32;
    let x = wrapped % w;
    let y = wrapped / w;
    let ghost s = img.data@;
    img.set(x, y, rgba);
    proof {
        let wi = w as int;
        lemma_fundamental_div_mod(wrapped as int, wi);
        vstd::arithmetic::div_mod::lemma_mod_bound(wrapped as int, wi);
        assert(wi * (y as int) == (y as int) * wi) by (nonlinear_arith);
        assert(y * wi + x == wrapped);
        assert forall|a: int, b: int| 0 <= a < w && 0 <= b < h implies #[trigger] pixel_at(img.data@, wi, a, b)
            == match scan_index(ncgr@, pos + 1, b * wi + a) {
                Some(i) => sheet_color(ncgr@, nclr@, bank as int, transparent0, i),
                None => clear(),
            } by {
            assert(0 <= b * wi) by (nonlinear_arith)
                requires
                    0 <= b,
                    0 <= wi,
            ;
            lemma_scan_step(ncgr@, pos as int, b * wi + a, wrapped as int);
            let same = a == x && b == y;
            if b * wi + a == wrapped {
                lemma_fundamental_div_mod_converse(wrapped as int, wi, b, a);
            }
            if x < w && y < h {
                lemma_put_pixel(s, wi, h as int, x as int, y as int, rgba@, a, b);
            } else {
                assert(b * wi + a < wrapped) by (nonlinear_arith)
                    requires
                        0 <= a < wi,
                        0 <= b < h,
                        y >= h,
                        y * wi + x == wrapped,
                        0 <= x,
                ;
            }
        }
    }
}

/// Whether `render_ncgr_sheet` can render `ncgr` with palette bank 0, whatever
/// the palette (what it asks of its arguments).
pub fn sheet_fits_exec(ncgr: &Ncgr) -> (b: bool)
    ensures
        forall|pal: PaletteModel| b == sheet_fits(ncgr@, pal, 0),
{
    let n = ncgr.char_data.len();
    let tb: usize = if ncgr.bit_depth == 4 { 32 } else { 64 };
    let count = n / tb;
    assert(count * 32 <= usize::MAX) by (nonlinear_arith)
        requires
            count == n / tb,
            tb >= 32,
            n <= usize::MAX,
    ;
    let cols: u128 = if ncgr.tiles_x > 0 {
        ncgr.tiles_x as u128
    } else {
        let r = rounded_root_exec(count);
        if r >= 1 { r as u128 } else { 1 }
    };
    assert(cols == sheet_cols(ncgr@));
    proof {
        if ncgr.tiles_x <= 0 {
            lemma_root_bound(count as int, 0);
        }
    }
    assert(cols <= 0x800_0000_0000_0000);
    let rows: u128 = if ncgr.tiles_y > 0 {
        ncgr.tiles_y as u128
    } else {
        (count as u128 / cols + if count as u128 % cols != 0 { 1 } else { 0 }) % 0x1_0000_0000
    };
    assert(rows == sheet_rows(ncgr@));
    assert(rows <= 0x800_0000_0000_0001) by {
        if ncgr.tiles_y <= 0 {
            assert(count as u128 / cols <= count as u128) by (nonlinear_arith)
                requires
                    cols >= 1,
            ;
        }
    }
    assert((cols * 8) * (rows * 8) * 4 <= 0x4000_0000_0000_0000 * 0x4000_0000_0000_0008 * 4) by (nonlinear_arith)
        requires
            cols <= 0x800_0000_0000_0000,
            rows <= 0x800_0000_0000_0001,
    ;
    let total: u128 = if ncgr.bit_depth == 4 { n as u128 * 2 } else { n as u128 };
    let scan_ok = !ncgr.scanned || total <= usize::MAX as u128 + 1;
    let rows_ok = ncgr.scanned || count == 0 || ((count as u128 - 1) / cols) * 8 + 7 <= 0xFFFF_FFFF;
    cols * 8 <= 0xFFFF_FFFF && rows * 8 <= 0xFFFF_FFFF
        && (cols * 8) * (rows * 8) * 4 <= usize::MAX as u128 && scan_ok && rows_ok
}

proof fn lemma_root_bound(n: int, k: int)
    requires
        0 <= k <= n || (k >= 0 && n <= k),
        0 <= n,
    ensures
        root_from(n, k) <= if n >= k { n } else { k },
    decreases n - k,
{
    if !(k >= n || k * k + k >= n) {
        lemma_root_bound(n, k + 1);
    }
}

} // verus!
