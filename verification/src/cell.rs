//! Assembly of NCER cells into sprite images.
use crate::cg::{palette_color, tile_byte, tile_bytes, tile_value, CharModel, Ncgr, Nclr, PaletteModel};
use crate::image::{clear, pixel_at, pixel_offset, put4, Image};
use crate::ncer::{CellModel, NcerCell, Oam};
use crate::sheet::{lemma_new_clear, lemma_put_pixel};
use vstd::arithmetic::div_mod::{lemma_fundamental_div_mod, lemma_fundamental_div_mod_converse, lemma_mod_bound};
use vstd::arithmetic::power2::{lemma_pow2_unfold, pow2};
use vstd::prelude::*;

verus! {

pub open spec fn min_i(a: int, b: int) -> int {
    if a <= b { a } else { b }
}

pub open spec fn max_i(a: int, b: int) -> int {
    if a >= b { a } else { b }
}

/// The box spanned by the first `k` objects (min_x, min_y, max_x, max_y).
pub open spec fn oam_extent(oams: Seq<Oam>, k: int) -> (int, int, int, int)
    decreases k,
{
    if k <= 0 {
        (i32::MAX as int, i32::MAX as int, i32::MIN as int, i32::MIN as int)
    } else {
        let e = oam_extent(oams, k - 1);
        let o = oams[k - 1];
        (min_i(e.0, o.x as int), min_i(e.1, o.y as int), max_i(e.2, o.x + o.width_tiles * 8),
            max_i(e.3, o.y + o.height_tiles * 8))
    }
}

/// The cell's box: its declared bounds, else the box of its objects.
pub open spec fn cell_box(cell: CellModel) -> (int, int, int, int) {
    match cell.bounds {
        Some(b) => (b.0 as int, b.1 as int, b.2 as int, b.3 as int),
        None => oam_extent(cell.oams, cell.oams.len() as int),
    }
}

/// `v` mirrored within `0..n` when `f` holds.
pub open spec fn flip(f: bool, n: int, v: int) -> int {
    if f { n - 1 - v } else { v }
}

/// The mapping boundary of mapping type `mt`: 32 shifted left by `mt` as a
/// machine word (bits shifted past the word's top are lost).
pub open spec fn mapping_boundary(mt: u32) -> int {
    (32 * pow2(mt as nat) as int) % (usize::MAX + 1)
}

/// First tile of an object: its character name scaled by the mapping boundary.
pub open spec fn obj_start(o: Oam, g: CharModel, mt: u32) -> int {
    (o.char_name * mapping_boundary(mt)) / tile_bytes(g.bit_depth)
}

/// Whether object `o` covers cell pixel (x, y) of a cell whose box starts at (min_x, min_y).
pub open spec fn obj_covers(o: Oam, min_x: int, min_y: int, x: int, y: int) -> bool {
    let lx = x - (o.x - min_x);
    let ly = y - (o.y - min_y);
    0 <= lx < o.width_tiles * 8 && 0 <= ly < o.height_tiles * 8
}

/// Source column of cell pixel x within object `o` (after undoing a flip).
pub open spec fn obj_sx(o: Oam, min_x: int, x: int) -> int {
    flip(o.h_flip, o.width_tiles * 8, x - (o.x - min_x))
}

/// Source row of cell pixel y within object `o`.
pub open spec fn obj_sy(o: Oam, min_y: int, y: int) -> int {
    flip(o.v_flip, o.height_tiles * 8, y - (o.y - min_y))
}

/// Palette index that object `o` shows at cell pixel (x, y).
pub open spec fn obj_index(o: Oam, g: CharModel, mt: u32, min_x: int, min_y: int, x: int, y: int) -> u8 {
    let sx = obj_sx(o, min_x, x);
    let sy = obj_sy(o, min_y, y);
    tile_value(g.data, g.bit_depth, obj_start(o, g, mt) + (sy / 8) * o.width_tiles + sx / 8, sx % 8, sy % 8)
}

/// The colour object `o` gives palette index `idx`.
pub open spec fn obj_color(o: Oam, pal: PaletteModel, idx: u8) -> Seq<u8> {
    if o.color256 {
        palette_color(pal.colors, idx as int)
    } else {
        palette_color(pal.colors, o.palette * pal.per_palette + idx)
    }
}

/// Whether object `o` paints cell pixel (x, y) (covered with a non-zero index).
pub open spec fn obj_paints(o: Oam, g: CharModel, mt: u32, min_x: int, min_y: int, x: int, y: int) -> bool {
    obj_covers(o, min_x, min_y, x, y) && obj_index(o, g, mt, min_x, min_y, x, y) != 0
}

/// Pixel (x, y) of a cell after drawing its first `k` objects in order (later
/// objects are drawn over earlier ones; index 0 is transparent).
pub open spec fn cell_pixel(cell: CellModel, g: CharModel, pal: PaletteModel, mt: u32, k: int, x: int, y: int) -> Seq<u8>
    decreases k,
{
    if k <= 0 {
        clear()
    } else {
        let o = cell.oams[k - 1];
        let b = cell_box(cell);
        if obj_paints(o, g, mt, b.0, b.1, x, y) {
            obj_color(o, pal, obj_index(o, g, mt, b.0, b.1, x, y))
        } else {
            cell_pixel(cell, g, pal, mt, k - 1, x, y)
        }
    }
}

/// Whether the machine can carry out the assembly of `cell` (no arithmetic overflow).
pub open spec fn cell_fits(cell: CellModel, g: CharModel, pal: PaletteModel, mt: u32) -> bool {
    let b = cell_box(cell);
    cell.oams.len() > 0 ==> {
        &&& pow2(mt as nat) <= usize::MAX
        &&& i32::MIN <= b.2 - b.0 <= i32::MAX
        &&& i32::MIN <= b.3 - b.1 <= i32::MAX
        &&& (b.2 > b.0 && b.3 > b.1) ==> (b.2 - b.0) * (b.3 - b.1) * 4 <= usize::MAX
        &&& forall|i: int| 0 <= i < cell.oams.len() ==> oam_fits(#[trigger] cell.oams[i], b.0, b.1, g, pal, mt)
    }
}

/// Whether object `o` can be drawn without arithmetic overflow.
pub open spec fn oam_fits(o: Oam, min_x: int, min_y: int, g: CharModel, pal: PaletteModel, mt: u32) -> bool {
    &&& o.width_tiles * 8 <= i32::MAX
    &&& o.height_tiles * 8 <= i32::MAX
    &&& o.x + o.width_tiles * 8 <= i32::MAX
    &&& o.y + o.height_tiles * 8 <= i32::MAX
    &&& o.width_tiles * o.height_tiles <= u32::MAX + 1
    &&& o.char_name * mapping_boundary(mt) <= usize::MAX
    &&& tile_byte(g.bit_depth, obj_start(o, g, mt) + o.width_tiles * o.height_tiles - 1, 7, 7) <= usize::MAX
    &&& i32::MIN <= o.x - min_x
    &&& o.x - min_x + o.width_tiles * 8 <= i32::MAX
    &&& i32::MIN <= o.y - min_y
    &&& o.y - min_y + o.height_tiles * 8 <= i32::MAX
    &&& o.palette * pal.per_palette + 256 <= usize::MAX
}

/// Source position (row tile, column tile, row, column) strictly before the
/// given one in drawing order.
pub open spec fn src_before(sy: int, sx: int, ty: int, tx: int, py: int, px: int) -> bool {
    sy / 8 < ty || (sy / 8 == ty && (sx / 8 < tx || (sx / 8 == tx && (sy % 8 < py || (sy % 8 == py && sx % 8 < px)))))
}

/// Whether object `o`'s drawing has reached cell pixel (x, y) at source position (ty, tx, py, px).
pub open spec fn drawn_so_far(o: Oam, g: CharModel, mt: u32, min_x: int, min_y: int, x: int, y: int,
    ty: int, tx: int, py: int, px: int) -> bool {
    obj_paints(o, g, mt, min_x, min_y, x, y)
        && src_before(obj_sy(o, min_y, y), obj_sx(o, min_x, x), ty, tx, py, px)
}

/// The image shows objects before `k` fully and object `k` up to source position (ty, tx, py, px).
pub open spec fn drawing(img: Image, cell: CellModel, g: CharModel, pal: PaletteModel, mt: u32, k: int,
    ty: int, tx: int, py: int, px: int) -> bool {
    let b = cell_box(cell);
    &&& img.wf()
    &&& img.width == b.2 - b.0
    &&& img.height == b.3 - b.1
    &&& 0 <= k < cell.oams.len()
    &&& forall|x: int, y: int| 0 <= x < img.width && 0 <= y < img.height ==>
        #[trigger] pixel_at(img.data@, img.width as int, x, y) == if drawn_so_far(cell.oams[k], g, mt, b.0, b.1, x, y, ty, tx, py, px) {
            obj_color(cell.oams[k], pal, obj_index(cell.oams[k], g, mt, b.0, b.1, x, y))
        } else {
            cell_pixel(cell, g, pal, mt, k, x, y)
        }
}

/// The image shows the first `k` objects.
pub open spec fn drawn_upto(img: Image, cell: CellModel, g: CharModel, pal: PaletteModel, mt: u32, k: int) -> bool {
    let b = cell_box(cell);
    &&& img.wf()
    &&& img.width == b.2 - b.0
    &&& img.height == b.3 - b.1
    &&& forall|x: int, y: int| 0 <= x < img.width && 0 <= y < img.height ==>
        #[trigger] pixel_at(img.data@, img.width as int, x, y) == cell_pixel(cell, g, pal, mt, k, x, y)
}

/// Drawing object `k` from its start is the picture of the first `k` objects.
proof fn lemma_start_object(img: Image, cell: CellModel, g: CharModel, pal: PaletteModel, mt: u32, k: int)
    requires
        drawn_upto(img, cell, g, pal, mt, k),
        0 <= k < cell.oams.len(),
    ensures
        drawing(img, cell, g, pal, mt, k, 0, 0, 0, 0),
{
    let b = cell_box(cell);
    let o = cell.oams[k];
    assert forall|x: int, y: int| 0 <= x < img.width && 0 <= y < img.height implies
        !drawn_so_far(o, g, mt, b.0, b.1, x, y, 0, 0, 0, 0) by {
        if obj_covers(o, b.0, b.1, x, y) {
            let sx = obj_sx(o, b.0, x);
            let sy = obj_sy(o, b.1, y);
            vstd::arithmetic::div_mod::lemma_div_pos_is_pos(sx, 8);
            vstd::arithmetic::div_mod::lemma_div_pos_is_pos(sy, 8);
            lemma_mod_bound(sx, 8);
            lemma_mod_bound(sy, 8);
        }
    }
}

/// Once every source position of object `k` has been visited, the image shows `k + 1` objects.
proof fn lemma_finish_object(img: Image, cell: CellModel, g: CharModel, pal: PaletteModel, mt: u32, k: int)
    requires
        drawing(img, cell, g, pal, mt, k, cell.oams[k].height_tiles as int, 0, 0, 0),
    ensures
        drawn_upto(img, cell, g, pal, mt, k + 1),
{
    let b = cell_box(cell);
    let o = cell.oams[k];
    assert forall|x: int, y: int| 0 <= x < img.width && 0 <= y < img.height implies
        drawn_so_far(o, g, mt, b.0, b.1, x, y, o.height_tiles as int, 0, 0, 0) == obj_paints(o, g, mt, b.0, b.1, x, y) by {
        if obj_covers(o, b.0, b.1, x, y) {
            let sy = obj_sy(o, b.1, y);
            assert(sy / 8 < o.height_tiles) by {
                vstd::arithmetic::div_mod::lemma_div_is_ordered(sy, o.height_tiles * 8 - 1, 8);
                lemma_fundamental_div_mod_converse(o.height_tiles * 8 - 1, 8, o.height_tiles - 1, 7);
            }
        }
    }
}

/// Stepping the source position within object `k` past the end of a row, tile or tile row.
proof fn lemma_carry(img: Image, cell: CellModel, g: CharModel, pal: PaletteModel, mt: u32, k: int, ty: int, tx: int, py: int)
    ensures
        py == 7 ==> (drawing(img, cell, g, pal, mt, k, ty, tx, py, 8) ==> drawing(img, cell, g, pal, mt, k, ty, tx, 8, 0)),
        drawing(img, cell, g, pal, mt, k, ty, tx, py, 8) ==> drawing(img, cell, g, pal, mt, k, ty, tx, py + 1, 0),
        drawing(img, cell, g, pal, mt, k, ty, tx, 8, 0) ==> drawing(img, cell, g, pal, mt, k, ty, tx + 1, 0, 0),
        0 <= k < cell.oams.len() && tx == cell.oams[k].width_tiles ==>
            (drawing(img, cell, g, pal, mt, k, ty, tx, 0, 0) ==> drawing(img, cell, g, pal, mt, k, ty + 1, 0, 0, 0)),
{
    let b = cell_box(cell);
    if 0 <= k < cell.oams.len() {
        let o = cell.oams[k];
        assert forall|x: int, y: int| #[trigger] obj_covers(o, b.0, b.1, x, y) implies
            0 <= obj_sx(o, b.0, x) % 8 < 8 && 0 <= obj_sy(o, b.1, y) % 8 < 8
            && obj_sx(o, b.0, x) / 8 < o.width_tiles by {
            let sx = obj_sx(o, b.0, x);
            lemma_mod_bound(sx, 8);
            lemma_mod_bound(obj_sy(o, b.1, y), 8);
            vstd::arithmetic::div_mod::lemma_div_is_ordered(sx, o.width_tiles * 8 - 1, 8);
            lemma_fundamental_div_mod_converse(o.width_tiles * 8 - 1, 8, o.width_tiles - 1, 7);
        }
    }
}

/// Painting (or skipping) the current source position advances the drawing by one position.
proof fn lemma_visit(img: Image, img2: Image, cell: CellModel, g: CharModel, pal: PaletteModel, mt: u32, k: int,
    ty: int, tx: int, py: int, px: int, dx: int, dy: int, idx: u8, painted_now: bool)
    requires
        drawing(img, cell, g, pal, mt, k, ty, tx, py, px),
        0 <= ty < cell.oams[k].height_tiles,
        0 <= tx < cell.oams[k].width_tiles,
        0 <= py < 8,
        0 <= px < 8,
        dx == (cell.oams[k].x - cell_box(cell).0) + flip(cell.oams[k].h_flip, cell.oams[k].width_tiles * 8, tx * 8 + px),
        dy == (cell.oams[k].y - cell_box(cell).1) + flip(cell.oams[k].v_flip, cell.oams[k].height_tiles * 8, ty * 8 + py),
        idx == tile_value(g.data, g.bit_depth, obj_start(cell.oams[k], g, mt) + ty * cell.oams[k].width_tiles + tx, px, py),
        painted_now == (idx != 0 && 0 <= dx < img.width && 0 <= dy < img.height),
        painted_now ==> obj_color(cell.oams[k], pal, idx).len() == 4,
        img2.width == img.width,
        img2.height == img.height,
        img2.data@ == if painted_now {
            put4(img.data@, pixel_offset(img.width as int, dx, dy), obj_color(cell.oams[k], pal, idx))
        } else {
            img.data@
        },
    ensures
        drawing(img2, cell, g, pal, mt, k, ty, tx, py, px + 1),
{
    let b = cell_box(cell);
    let o = cell.oams[k];
    let w = img.width as int;
    let h = img.height as int;
    assert forall|x: int, y: int| 0 <= x < w && 0 <= y < h implies
        #[trigger] pixel_at(img2.data@, w, x, y) == if drawn_so_far(o, g, mt, b.0, b.1, x, y, ty, tx, py, px + 1) {
            obj_color(o, pal, obj_index(o, g, mt, b.0, b.1, x, y))
        } else {
            cell_pixel(cell, g, pal, mt, k, x, y)
        } by {
        let sx = obj_sx(o, b.0, x);
        let sy = obj_sy(o, b.1, y);
        let here = obj_covers(o, b.0, b.1, x, y) && sy / 8 == ty && sx / 8 == tx && sy % 8 == py && sx % 8 == px;
        lemma_source_here(o, b.0, b.1, x, y, ty, tx, py, px, dx, dy);
        if here {
            assert(x == dx && y == dy);
            assert(obj_index(o, g, mt, b.0, b.1, x, y) == idx);
        }
        if painted_now {
            lemma_put_pixel(img.data@, w, h, dx, dy, obj_color(o, pal, idx), x, y);
        }
    }
}

/// Cell pixel (x, y) comes from source position (ty, tx, py, px) of `o` exactly
/// when it is the pixel that position is drawn to.
proof fn lemma_source_here(o: Oam, min_x: int, min_y: int, x: int, y: int, ty: int, tx: int, py: int, px: int, dx: int, dy: int)
    requires
        0 <= ty < o.height_tiles,
        0 <= tx < o.width_tiles,
        0 <= py < 8,
        0 <= px < 8,
        dx == (o.x - min_x) + flip(o.h_flip, o.width_tiles * 8, tx * 8 + px),
        dy == (o.y - min_y) + flip(o.v_flip, o.height_tiles * 8, ty * 8 + py),
    ensures
        (obj_covers(o, min_x, min_y, x, y) && obj_sy(o, min_y, y) / 8 == ty && obj_sx(o, min_x, x) / 8 == tx
            && obj_sy(o, min_y, y) % 8 == py && obj_sx(o, min_x, x) % 8 == px) == (x == dx && y == dy),
{
    lemma_fundamental_div_mod_converse(tx * 8 + px, 8, tx, px);
    lemma_fundamental_div_mod_converse(ty * 8 + py, 8, ty, py);
    let sx = obj_sx(o, min_x, x);
    let sy = obj_sy(o, min_y, y);
    if obj_covers(o, min_x, min_y, x, y) && sy / 8 == ty && sx / 8 == tx && sy % 8 == py && sx % 8 == px {
        lemma_fundamental_div_mod(sx, 8);
        lemma_fundamental_div_mod(sy, 8);
    }
    if x == dx && y == dy {
        assert(tx * 8 + px < o.width_tiles * 8);
        assert(ty * 8 + py < o.height_tiles * 8);
    }
}

fn boundary_for(mt: u32) -> (b: usize)
    requires
        pow2(mt as nat) <= usize::MAX,
    ensures
        b == mapping_boundary(mt),
{
    let half: usize = usize::MAX / 2 + 1;
    let ghost m: int = usize::MAX + 1;
    proof {
        assert(usize::MAX == 0xFFFF_FFFF || usize::MAX == 0xFFFF_FFFF_FFFF_FFFF);
        assert(pow2(0) == 1) by {
            vstd::arithmetic::power2::lemma2_to64();
        }
        vstd::arithmetic::div_mod::lemma_small_mod(32, m as nat);
    }
    let mut b: usize = 32;
    let mut i: u32 = 0;
    while i < mt
        invariant
            i <= mt,
            m == usize::MAX + 1,
            half * 2 == m,
            b == (32 * pow2(i as nat) as int) % m,
        decreases mt - i,
    {
        proof {
            lemma_pow2_unfold((i + 1) as nat);
            vstd::arithmetic::div_mod::lemma_mul_mod_noop_right(2, 32 * pow2(i as nat) as int, m);
            assert(32 * pow2((i + 1) as nat) == 2 * (32 * pow2(i as nat)));
            if b >= half {
                lemma_fundamental_div_mod_converse(2 * b, m, 1, 2 * b - m);
            } else {
                lemma_fundamental_div_mod_converse(2 * b, m, 0, 2 * b);
            }
        }
        if b >= half {
            b = (b - half) * 2;
        } else {
            b = b * 2;
        }
        i = i + 1;
    }
    b
}

/// Assemble one cell into a sprite image using the character set and palette.
pub fn assemble_cell(cell: &NcerCell, ncgr: &Ncgr, nclr: &Nclr, mapping_type: u32) -> (img: Image)
    requires
        cell_fits(cell@, ncgr@, nclr@, mapping_type),
    ensures
        img.wf(),
        ({
            let b = cell_box(cell@);
            if cell.oams.len() == 0 || b.2 - b.0 <= 0 || b.3 - b.1 <= 0 {
                img.width == 0 && img.height == 0
            } else {
                &&& img.width == b.2 - b.0
                &&& img.height == b.3 - b.1
                &&& forall|x: int, y: int| 0 <= x < img.width && 0 <= y < img.height ==>
                    #[trigger] pixel_at(img.data@, img.width as int, x, y)
                        == cell_pixel(cell@, ncgr@, nclr@, mapping_type, cell.oams.len() as int, x, y)
            }
        }),
{
    if cell.oams.len() == 0 {
        return Image::new(0, 0);
    }
    let (min_x, min_y, max_x, max_y) = match cell.bounds {
        Some(b) => b,
        None => extent(&cell.oams),
    };
    let width = max_x - min_x;
    let height = max_y - min_y;
    if width <= 0 || height <= 0 {
        return Image::new(0, 0);
    }
    let mut img = Image::new(width as u32, height as u32);
    proof {
        assert forall|x: int, y: int| 0 <= x < img.width && 0 <= y < img.height implies
            #[trigger] pixel_at(img.data@, img.width as int, x, y) == cell_pixel(cell@, ncgr@, nclr@, mapping_type, 0, x, y) by {
            lemma_new_clear(img, x, y);
        }
    }
    let boundary = boundary_for(mapping_type);
    let bpt = ncgr.bytes_per_tile();
    let n = cell.oams.len();
    let mut k: usize = 0;
    while k < n
        invariant
            n == cell.oams.len(),
            k <= n,
            cell_fits(cell@, ncgr@, nclr@, mapping_type),
            (min_x as int, min_y as int, max_x as int, max_y as int) == cell_box(cell@),
            width == max_x - min_x,
            height == max_y - min_y,
            width > 0,
            height > 0,
            boundary == mapping_boundary(mapping_type),
            bpt == tile_bytes(ncgr.bit_depth),
            drawn_upto(img, cell@, ncgr@, nclr@, mapping_type, k as int),
        decreases n - k,
    {
        let oam = cell.oams[k];
        proof {
            assert(oam_fits(oam, min_x as int, min_y as int, ncgr@, nclr@, mapping_type));
            lemma_start_object(img, cell@, ncgr@, nclr@, mapping_type, k as int);
        }
        let start_tile = (oam.char_name as usize * boundary) / bpt;
        let mut ty: u32 = 0;
        while ty < oam.height_tiles
            invariant
                n == cell.oams.len(),
                k < n,
                oam == cell.oams[k as int],
                oam_fits(oam, min_x as int, min_y as int, ncgr@, nclr@, mapping_type),
                (min_x as int, min_y as int, max_x as int, max_y as int) == cell_box(cell@),
                width == max_x - min_x,
                height == max_y - min_y,
                start_tile == obj_start(oam, ncgr@, mapping_type),
                ty <= oam.height_tiles,
                drawing(img, cell@, ncgr@, nclr@, mapping_type, k as int, ty as int, 0, 0, 0),
            decreases oam.height_tiles - ty,
        {
            let mut tx: u32 = 0;
            while tx < oam.width_tiles
                invariant
                    n == cell.oams.len(),
                    k < n,
                    oam == cell.oams[k as int],
                    oam_fits(oam, min_x as int, min_y as int, ncgr@, nclr@, mapping_type),
                    (min_x as int, min_y as int, max_x as int, max_y as int) == cell_box(cell@),
                    width == max_x - min_x,
                    height == max_y - min_y,
                    start_tile == obj_start(oam, ncgr@, mapping_type),
                    ty < oam.height_tiles,
                    tx <= oam.width_tiles,
                    drawing(img, cell@, ncgr@, nclr@, mapping_type, k as int, ty as int, tx as int, 0, 0),
                decreases oam.width_tiles - tx,
            {
                proof {
                    assert(ty * oam.width_tiles + tx < oam.width_tiles * oam.height_tiles) by (nonlinear_arith)
                        requires
                            ty < oam.height_tiles,
                            tx < oam.width_tiles,
                    ;
                }
                let tile = start_tile + (ty * oam.width_tiles + tx) as usize;
                let mut py: u32 = 0;
                while py < 8
                    invariant
                        n == cell.oams.len(),
                        k < n,
                        oam == cell.oams[k as int],
                        oam_fits(oam, min_x as int, min_y as int, ncgr@, nclr@, mapping_type),
                        (min_x as int, min_y as int, max_x as int, max_y as int) == cell_box(cell@),
                        width == max_x - min_x,
                        height == max_y - min_y,
                        ty < oam.height_tiles,
                        tx < oam.width_tiles,
                        tile == obj_start(oam, ncgr@, mapping_type) + ty * oam.width_tiles + tx,
                        tile_byte(ncgr.bit_depth, tile as int, 7, 7) <= usize::MAX,
                        py <= 8,
                        drawing(img, cell@, ncgr@, nclr@, mapping_type, k as int, ty as int, tx as int, py as int, 0),
                    decreases 8 - py,
                {
                    let mut px: u32 = 0;
                    while px < 8
                        invariant
                            n == cell.oams.len(),
                            k < n,
                            oam == cell.oams[k as int],
                            oam_fits(oam, min_x as int, min_y as int, ncgr@, nclr@, mapping_type),
                            (min_x as int, min_y as int, max_x as int, max_y as int) == cell_box(cell@),
                            width == max_x - min_x,
                            height == max_y - min_y,
                            ty < oam.height_tiles,
                            tx < oam.width_tiles,
                            tile == obj_start(oam, ncgr@, mapping_type) + ty * oam.width_tiles + tx,
                            tile_byte(ncgr.bit_depth, tile as int, 7, 7) <= usize::MAX,
                            py < 8,
                            px <= 8,
                            drawing(img, cell@, ncgr@, nclr@, mapping_type, k as int, ty as int, tx as int, py as int, px as int),
                        decreases 8 - px,
                    {
                        let idx = ncgr.tile_pixel(tile, px, py);
                        let mut lx = tx * 8 + px;
                        let mut ly = ty * 8 + py;
                        if oam.h_flip {
                            lx = oam.width_tiles * 8 - 1 - lx;
                        }
                        if oam.v_flip {
                            ly = oam.height_tiles * 8 - 1 - ly;
                        }
                        let dx = oam.x - min_x + lx as i32;
                        let dy = oam.y - min_y + ly as i32;
                        let paint_now = idx != 0 && dx >= 0 && dy >= 0 && dx < width && dy < height;
                        let ghost before = img;
                        if paint_now {
                            let rgba = if oam.color256 {
                                nclr.color(0, idx as usize)
                            } else {
                                nclr.color(oam.palette as usize, idx as usize)
                            };
                            img.set(dx as u32, dy as u32, rgba);
                        }
                        proof {
                            lemma_visit(before, img, cell@, ncgr@, nclr@, mapping_type, k as int, ty as int, tx as int,
                                py as int, px as int, dx as int, dy as int, idx, paint_now);
                        }
                        px = px + 1;
                    }
                    proof {
                        lemma_carry(img, cell@, ncgr@, nclr@, mapping_type, k as int, ty as int, tx as int, py as int);
                    }
                    py = py + 1;
                }
                proof {
                    lemma_carry(img, cell@, ncgr@, nclr@, mapping_type, k as int, ty as int, tx as int, 7);
                }
                tx = tx + 1;
            }
            proof {
                lemma_carry(img, cell@, ncgr@, nclr@, mapping_type, k as int, ty as int, tx as int, 0);
            }
            ty = ty + 1;
        }
        proof {
            lemma_finish_object(img, cell@, ncgr@, nclr@, mapping_type, k as int);
        }
        k = k + 1;
    }
    img
}

/// The box of the objects, computed as `assemble_cell` does for undeclared bounds.
fn extent(oams: &Vec<Oam>) -> (e: (i32, i32, i32, i32))
    requires
        forall|i: int| 0 <= i < oams@.len() ==> {
            let o = #[trigger] oams@[i];
            &&& o.width_tiles * 8 <= i32::MAX
            &&& o.height_tiles * 8 <= i32::MAX
            &&& o.x + o.width_tiles * 8 <= i32::MAX
            &&& o.y + o.height_tiles * 8 <= i32::MAX
        },
    ensures
        (e.0 as int, e.1 as int, e.2 as int, e.3 as int) == oam_extent(oams@, oams@.len() as int),
{
    let mut mnx = i32::MAX;
    let mut mny = i32::MAX;
    let mut mxx = i32::MIN;
    let mut mxy = i32::MIN;
    let mut i: usize = 0;
    while i < oams.len()
        invariant
            i <= oams@.len(),
            forall|j: int| 0 <= j < oams@.len() ==> {
                let o = #[trigger] oams@[j];
                &&& o.width_tiles * 8 <= i32::MAX
                &&& o.height_tiles * 8 <= i32::MAX
                &&& o.x + o.width_tiles * 8 <= i32::MAX
                &&& o.y + o.height_tiles * 8 <= i32::MAX
            },
            (mnx as int, mny as int, mxx as int, mxy as int) == oam_extent(oams@, i as int),
        decreases oams@.len() - i,
    {
        let o = oams[i];
        let ex = o.x + o.width_tiles as i32 * 8;
        let ey = o.y + o.height_tiles as i32 * 8;
        if o.x < mnx { mnx = o.x; }
        if o.y < mny { mny = o.y; }
        if ex > mxx { mxx = ex; }
        if ey > mxy { mxy = ey; }
        i = i + 1;
    }
    (mnx, mny, mxx, mxy)
}


/// Whether shifting a machine word left by `mt` stays within its width.
fn shift_fits(mt: u32) -> (b: bool)
    ensures
        b == (pow2(mt as nat) <= usize::MAX),
{
    proof {
        vstd::arithmetic::power2::lemma2_to64();
        vstd::arithmetic::power2::lemma2_to64_rest();
    }
    if mt >= 64 {
        proof {
            if mt > 64 {
                vstd::arithmetic::power2::lemma_pow2_strictly_increases(64, mt as nat);
            }
        }
        return false;
    }
    let mut p: u128 = 1;
    let mut i: u32 = 0;
    while i < mt
        invariant
            i <= mt,
            mt < 64,
            p == pow2(i as nat),
            pow2(i as nat) <= pow2(63),
            pow2(63) == 0x8000_0000_0000_0000,
        decreases mt - i,
    {
        proof {
            lemma_pow2_unfold((i + 1) as nat);
            if i + 1 < 63 {
                vstd::arithmetic::power2::lemma_pow2_strictly_increases((i + 1) as nat, 63);
            }
        }
        p = p * 2;
        i = i + 1;
    }
    p <= usize::MAX as u128
}

/// The box spanned by a cell's objects, computed wide enough for any objects.
fn extent_wide(oams: &Vec<Oam>) -> (e: (i64, i64, i64, i64))
    ensures
        (e.0 as int, e.1 as int, e.2 as int, e.3 as int) == oam_extent(oams@, oams@.len() as int),
{
    let mut mnx: i64 = i32::MAX as i64;
    let mut mny: i64 = i32::MAX as i64;
    let mut mxx: i64 = i32::MIN as i64;
    let mut mxy: i64 = i32::MIN as i64;
    let mut i: usize = 0;
    while i < oams.len()
        invariant
            i <= oams@.len(),
            (mnx as int, mny as int, mxx as int, mxy as int) == oam_extent(oams@, i as int),
            i32::MIN <= mnx <= i32::MAX,
            i32::MIN <= mny <= i32::MAX,
            i32::MIN <= mxx <= i32::MAX + 0x8_0000_0000,
            i32::MIN <= mxy <= i32::MAX + 0x8_0000_0000,
        decreases oams.len() - i,
    {
        let o = &oams[i];
        let x = o.x as i64;
        let y = o.y as i64;
        let r = x + o.width_tiles as i64 * 8;
        let b = y + o.height_tiles as i64 * 8;
        if x < mnx {
            mnx = x;
        }
        if y < mny {
            mny = y;
        }
        if r > mxx {
            mxx = r;
        }
        if b > mxy {
            mxy = b;
        }
        i = i + 1;
    }
    (mnx, mny, mxx, mxy)
}

/// The cell's box, computed wide enough for any cell.
fn box_wide(cell: &NcerCell) -> (b: (i64, i64, i64, i64))
    ensures
        (b.0 as int, b.1 as int, b.2 as int, b.3 as int) == cell_box(cell@),
{
    match cell.bounds {
        Some(bd) => (bd.0 as i64, bd.1 as i64, bd.2 as i64, bd.3 as i64),
        None => extent_wide(&cell.oams),
    }
}

/// Whether `cell` assembles to a non-empty image.
pub fn cell_shows_exec(cell: &NcerCell) -> (b: bool)
    ensures
        b == ({
            let bx = cell_box(cell@);
            cell@.oams.len() > 0 && bx.2 - bx.0 > 0 && bx.3 - bx.1 > 0
        }),
{
    let bx = box_wide(cell);
    cell.oams.len() > 0 && bx.2 > bx.0 && bx.3 > bx.1
}

fn oam_fits_exec(o: &Oam, min_x: i64, min_y: i64, ncgr: &Ncgr, nclr: &Nclr, mt: u32, bnd: u128) -> (b: bool)
    requires
        bnd == mapping_boundary(mt),
        bnd <= u64::MAX,
    ensures
        b == oam_fits(*o, min_x as int, min_y as int, ncgr@, nclr@, mt),
{
    let w8 = o.width_tiles as i128 * 8;
    let h8 = o.height_tiles as i128 * 8;
    let i32max: i128 = 0x7FFF_FFFF;
    let i32min: i128 = -0x8000_0000;
    let umax = usize::MAX as u128;
    assert(o.width_tiles as u128 * o.height_tiles as u128 <= 0xFFFF_FFFF * 0xFFFF_FFFF) by (nonlinear_arith)
        requires
            o.width_tiles <= 0xFFFF_FFFF,
            o.height_tiles <= 0xFFFF_FFFF,
    ;
    let wh = o.width_tiles as u128 * o.height_tiles as u128;
    assert(o.char_name as u128 * bnd <= 0xFFFF_FFFF * 0xFFFF_FFFF_FFFF_FFFF) by (nonlinear_arith)
        requires
            o.char_name <= 0xFFFF_FFFF,
            bnd <= u64::MAX,
    ;
    let cn = o.char_name as u128 * bnd;
    let tb: u128 = if ncgr.bit_depth == 4 { 32 } else { 64 };
    let start = cn / tb;
    assert(o.palette as u128 * nclr.colors_per_palette as u128 <= 0xFFFF_FFFF * 0xFFFF_FFFF_FFFF_FFFF) by (nonlinear_arith)
        requires
            o.palette <= 0xFFFF_FFFF,
            nclr.colors_per_palette <= u64::MAX,
    ;
    let pp = o.palette as u128 * nclr.colors_per_palette as u128;
    let dx = o.x as i128 - min_x as i128;
    let dy = o.y as i128 - min_y as i128;
    assert(start <= cn);
    let last = (start + wh) * tb;
    assert(last - 1 == tile_byte(ncgr.bit_depth, start + wh - 1, 7, 7));
    w8 <= i32max && h8 <= i32max && o.x as i128 + w8 <= i32max && o.y as i128 + h8 <= i32max
        && wh <= 0x1_0000_0000 && cn <= umax && last <= umax + 1 && i32min <= dx && dx + w8 <= i32max
        && i32min <= dy && dy + h8 <= i32max && pp + 256 <= umax
}

/// Whether `assemble_cell` can assemble `cell` with these resources (what
/// it asks of its arguments).
pub fn cell_fits_exec(cell: &NcerCell, ncgr: &Ncgr, nclr: &Nclr, mapping_type: u32) -> (b: bool)
    ensures
        b == cell_fits(cell@, ncgr@, nclr@, mapping_type),
{
    if cell.oams.len() == 0 {
        return true;
    }
    if !shift_fits(mapping_type) {
        return false;
    }
    let bnd = boundary_for(mapping_type) as u128;
    let bx = box_wide(cell);
    let w = bx.2 as i128 - bx.0 as i128;
    let h = bx.3 as i128 - bx.1 as i128;
    let i32max: i128 = 0x7FFF_FFFF;
    let i32min: i128 = -0x8000_0000;
    if w < i32min || w > i32max || h < i32min || h > i32max {
        return false;
    }
    if w > 0 && h > 0 {
        assert(w * h * 4 <= 0x7FFF_FFFF * 0x7FFF_FFFF * 4) by (nonlinear_arith)
            requires
                0 < w <= 0x7FFF_FFFF,
                0 < h <= 0x7FFF_FFFF,
        ;
        if w * h * 4 > usize::MAX as i128 {
            return false;
        }
    }
    let mut i: usize = 0;
    while i < cell.oams.len()
        invariant
            i <= cell.oams@.len(),
            bnd == mapping_boundary(mapping_type),
            bnd <= u64::MAX,
            (bx.0 as int, bx.1 as int, bx.2 as int, bx.3 as int) == cell_box(cell@),
            forall|j: int| 0 <= j < i ==> oam_fits(#[trigger] cell@.oams[j], bx.0 as int, bx.1 as int, ncgr@, nclr@, mapping_type),
        decreases cell.oams.len() - i,
    {
        if !oam_fits_exec(&cell.oams[i], bx.0, bx.1, ncgr, nclr, mapping_type, bnd) {
            return false;
        }
        i = i + 1;
    }
    true
}

} // verus!
