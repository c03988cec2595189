//! NCER cell banks: OAM assembly of NCGR tiles into sprites.
use crate::bytes::{le16, le16_exec};
use crate::error::Error;
use crate::image::{find_ntr_block, ntr_block};
use vstd::prelude::*;

verus! {

/// One OAM object: a block of tiles placed at a signed offset, optionally flipped.
#[derive(Copy, Clone, PartialEq, Eq, Structural)]
pub struct Oam {
    pub x: i32,
    pub y: i32,
    pub width_tiles: u32,
    pub height_tiles: u32,
    pub char_name: u32,
    pub palette: u32,
    pub h_flip: bool,
    pub v_flip: bool,
    pub color256: bool,
}

/// A cell: its objects and, for extended banks, its declared bounds
/// (min_x, min_y, max_x, max_y).
pub struct NcerCell {
    pub oams: Vec<Oam>,
    pub bounds: Option<(i32, i32, i32, i32)>,
}

/// A cell as plain values.
pub struct CellModel {
    pub oams: Seq<Oam>,
    pub bounds: Option<(i32, i32, i32, i32)>,
}

impl View for NcerCell {
    type V = CellModel;

    open spec fn view(&self) -> CellModel {
        CellModel { oams: self.oams@, bounds: self.bounds }
    }
}

pub struct Ncer {
    pub mapping_type: u32,
    pub cells: Vec<NcerCell>,
}

/// (width, height) in tiles of an object of the given shape and size.
pub open spec fn oam_dims(shape: int, size: int) -> (u32, u32) {
    if shape == 0 {
        if size == 0 { (1, 1) } else if size == 1 { (2, 2) } else if size == 2 { (4, 4) } else if size == 3 { (8, 8) } else { (1, 1) }
    } else if shape == 1 {
        if size == 0 { (2, 1) } else if size == 1 { (4, 1) } else if size == 2 { (4, 2) } else if size == 3 { (8, 4) } else { (1, 1) }
    } else if shape == 2 {
        if size == 0 { (1, 2) } else if size == 1 { (1, 4) } else if size == 2 { (2, 4) } else if size == 3 { (4, 8) } else { (1, 1) }
    } else {
        (1, 1)
    }
}

fn oam_dimensions(shape: u32, size: u32) -> (d: (u32, u32))
    ensures
        d == oam_dims(shape as int, size as int),
{
    if shape == 0 {
        if size == 0 { (1, 1) } else if size == 1 { (2, 2) } else if size == 2 { (4, 4) } else if size == 3 { (8, 8) } else { (1, 1) }
    } else if shape == 1 {
        if size == 0 { (2, 1) } else if size == 1 { (4, 1) } else if size == 2 { (4, 2) } else if size == 3 { (8, 4) } else { (1, 1) }
    } else if shape == 2 {
        if size == 0 { (1, 2) } else if size == 1 { (1, 4) } else if size == 2 { (2, 4) } else if size == 3 { (4, 8) } else { (1, 1) }
    } else {
        (1, 1)
    }
}

/// A byte read as signed.
pub open spec fn signed8(v: int) -> int {
    if v >= 128 { v - 256 } else { v }
}

/// The object described by OAM attributes `a0 a1 a2`.
pub open spec fn decode_oam(a0: int, a1: int, a2: int) -> Oam {
    let x9 = a1 % 512;
    let dims = oam_dims((a0 / 16384) % 4, (a1 / 16384) % 4);
    Oam {
        x: (if x9 >= 256 { x9 - 512 } else { x9 }) as i32,
        y: signed8(a0 % 256) as i32,
        width_tiles: dims.0,
        height_tiles: dims.1,
        char_name: (a2 % 1024) as u32,
        palette: ((a2 / 4096) % 16) as u32,
        h_flip: (a1 / 4096) % 2 == 1,
        v_flip: (a1 / 8192) % 2 == 1,
        color256: (a0 / 8192) % 2 == 1,
    }
}

/// The KBEC block of a cell file.
pub open spec fn kbec_block(f: Seq<u8>) -> Option<Seq<u8>> {
    ntr_block(f, 75, 66, 69, 67)
}

/// Bytes per cell record in a KBEC block.
pub open spec fn cell_size(b: Seq<u8>) -> int {
    if b[0x0A] == 1 { 16 } else { 8 }
}

/// Whether `parse_ncer` can read block `b`: the header fields up to the
/// mapping type at 0x10, and every cell record's fields, lie inside it.
pub open spec fn kbec_readable(b: Seq<u8>) -> bool {
    &&& b.len() >= 0x11
    &&& le16(b, 0x08) > 0 ==> 0x20 + (le16(b, 0x08) - 1) * cell_size(b) + (if b[0x0A] == 1 { 16int } else { 2int }) <= b.len()
}

/// Whether `parse_ncer` can read `f`.
pub open spec fn ncer_readable(f: Seq<u8>) -> bool {
    kbec_block(f) matches Some(b) ==> kbec_readable(b)
}

/// Object count of cell `i`.
pub open spec fn cell_oam_count(b: Seq<u8>, i: int) -> int {
    le16(b, 0x20 + i * cell_size(b))
}

/// Where the objects of cell `i` start: after the cell records, past the
/// objects of the earlier cells.
pub open spec fn oam_cursor(b: Seq<u8>, i: int) -> int
    decreases i,
{
    if i <= 0 {
        0x20 + le16(b, 0x08) * cell_size(b)
    } else {
        oam_cursor(b, i - 1) + 6 * cell_oam_count(b, i - 1)
    }
}

/// The objects of cell `i`: its declared count, cut at the first one that does
/// not fit in the block.
pub open spec fn cell_oams(b: Seq<u8>, i: int) -> Seq<Oam> {
    let c = oam_cursor(b, i);
    let n = cell_oam_count(b, i);
    let fit = if c + 6 > b.len() { 0 } else { (b.len() - c) / 6 };
    let k = if n <= fit { n } else { fit };
    Seq::new(k as nat, |j: int| decode_oam(le16(b, c + 6 * j), le16(b, c + 6 * j + 2), le16(b, c + 6 * j + 4)))
}

/// The declared bounds of cell `i`, for extended banks.
pub open spec fn cell_bounds_decl(b: Seq<u8>, i: int) -> Option<(i32, i32, i32, i32)> {
    let base = 0x20 + i * cell_size(b);
    if b[0x0A] == 1 {
        Some((
            signed16(le16(b, base + 12)) as i32,
            signed16(le16(b, base + 14)) as i32,
            signed16(le16(b, base + 8)) as i32,
            signed16(le16(b, base + 10)) as i32,
        ))
    } else {
        None
    }
}

/// A 16-bit value read as signed.
pub open spec fn signed16(v: int) -> int {
    if v >= 0x8000 { v - 0x10000 } else { v }
}

/// Whether `n` is the cell bank stored in block `b`.
pub open spec fn ncer_from_block(n: Ncer, b: Seq<u8>) -> bool {
    &&& n.mapping_type == b[0x10]
    &&& n.cells@.len() == le16(b, 0x08)
    &&& forall|i: int| 0 <= i < n.cells@.len() ==> (#[trigger] n.cells@[i]).oams@ == cell_oams(b, i)
        && n.cells@[i].bounds == cell_bounds_decl(b, i)
}

fn s16(v: u16) -> (r: i32)
    ensures
        r == signed16(v as int),
{
    if v >= 0x8000 { v as i32 - 0x10000 } else { v as i32 }
}

fn oam_from(a0: u16, a1: u16, a2: u16) -> (o: Oam)
    ensures
        o == decode_oam(a0 as int, a1 as int, a2 as int),
{
    let lo = a0 % 256;
    let y: i32 = if lo >= 128 { lo as i32 - 256 } else { lo as i32 };
    let color256 = (a0 / 8192) % 2 == 1;
    let shape = ((a0 / 16384) % 4) as u32;
    let x9 = (a1 % 512) as i32;
    let x = if x9 >= 256 { x9 - 512 } else { x9 };
    let h_flip = (a1 / 4096) % 2 == 1;
    let v_flip = (a1 / 8192) % 2 == 1;
    let size = ((a1 / 16384) % 4) as u32;
    let char_name = (a2 % 1024) as u32;
    let palette = ((a2 / 4096) % 16) as u32;
    let (w, h) = oam_dimensions(shape, size);
    Oam { x, y, width_tiles: w, height_tiles: h, char_name, palette, h_flip, v_flip, color256 }
}

impl View for Ncer {
    type V = (u32, Seq<CellModel>);

    open spec fn view(&self) -> (u32, Seq<CellModel>) {
        (self.mapping_type, self.cells@.map_values(|c: NcerCell| c@))
    }
}

/// The cell bank stored in `f` (when it has a KBEC block).
pub open spec fn ncer_of(f: Seq<u8>) -> (u32, Seq<CellModel>) {
    match kbec_block(f) {
        Some(b) => (b[0x10] as u32, Seq::new(le16(b, 0x08) as nat, |i: int| CellModel {
            oams: cell_oams(b, i),
            bounds: cell_bounds_decl(b, i),
        })),
        None => (0, seq![]),
    }
}

/// Decodes an NCER cell bank.
pub fn parse_ncer(file: &[u8]) -> (r: Result<Ncer, Error>)
    requires
        ncer_readable(file@),
    ensures
        r matches Ok(n) ==> n@ == ncer_of(file@),
        r is Err <==> kbec_block(file@) is None,
        match kbec_block(file@) {
            Some(b) => r matches Ok(n) && ncer_from_block(n, b),
            None => r matches Err(e) && e == Error::MissingBlock,
        },
{
    let block = match find_ntr_block(file, 75, 66, 69, 67) {
        Some(b) => b,
        None => {
            return Err(Error::MissingBlock);
        },
    };
    let ghost b = block@;
    let bl = block.len();
    let cell_count = le16_exec(block, 0x08) as usize;
    let extended = block[0x0A] == 1;
    let csize: usize = if extended { 0x10 } else { 0x08 };
    let mapping_type = block[0x10] as u32;
    let cells_at: usize = 0x20;
    let mut oam_cursor_v: u64 = (cells_at + cell_count * csize) as u64;
    let mut cells: Vec<NcerCell> = Vec::with_capacity(cell_count);
    let mut i: usize = 0;
    while i < cell_count
        invariant
            b == block@,
            bl == b.len(),
            kbec_readable(b),
            cell_count == le16(b, 0x08),
            cell_count <= 0xFFFF,
            cells_at == 0x20,
            csize == cell_size(b),
            extended == (b[0x0A] == 1),
            i <= cell_count,
            oam_cursor_v == oam_cursor(b, i as int),
            oam_cursor_v <= 0x20 + 0x10 * 0xFFFF + 6 * 0xFFFF * i,
            cells@.len() == i,
            forall|c: int| 0 <= c < i ==> (#[trigger] cells@[c]).oams@ == cell_oams(b, c)
                && cells@[c].bounds == cell_bounds_decl(b, c),
        decreases cell_count - i,
    {
        assert(i * csize <= 0xFFFF * 16) by (nonlinear_arith)
            requires
                i < cell_count,
                cell_count <= 0xFFFF,
                csize <= 16,
        ;
        let rec_off = i * csize;
        let base = cells_at + rec_off;
        proof {
            assert(base + 2 <= bl) by (nonlinear_arith)
                requires
                    base == 0x20 + i * csize,
                    i < cell_count,
                    cell_count > 0,
                    0x20 + (cell_count - 1) * csize + 2 <= bl,
            ;
            if extended {
                assert(base + 16 <= bl) by (nonlinear_arith)
                    requires
                        base == 0x20 + i * csize,
                        i < cell_count,
                        csize == 16,
                        0x20 + (cell_count - 1) * csize + 16 <= bl,
                ;
            }
        }
        let oam_count = le16_exec(block, base) as usize;
        let bounds = if extended {
            Some((
                s16(le16_exec(block, base + 12)),
                s16(le16_exec(block, base + 14)),
                s16(le16_exec(block, base + 8)),
                s16(le16_exec(block, base + 10)),
            ))
        } else {
            None
        };
        let ghost want = cell_oams(b, i as int);
        let mut oams: Vec<Oam> = Vec::with_capacity(oam_count);
        let mut j: usize = 0;
        while j < oam_count
            invariant
                b == block@,
                bl == b.len(),
                oam_cursor_v == oam_cursor(b, i as int),
                oam_count == cell_oam_count(b, i as int),
                oam_count <= 0xFFFF,
                i < 0xFFFF,
                oam_cursor_v <= 0x20 + 0x10 * 0xFFFF + 6 * 0xFFFF * i,
                want == cell_oams(b, i as int),
                j <= oam_count,
                j <= want.len(),
                oams@ == want.subrange(0, j as int),
            ensures
                oams@ == want,
            decreases oam_count - j,
        {
            assert(oam_cursor_v + j * 6 + 6 <= u64::MAX) by (nonlinear_arith)
                requires
                    oam_cursor_v <= 0x20 + 0x10 * 0xFFFF + 6 * 0xFFFF * i,
                    i < 0xFFFF,
                    j < oam_count,
                    oam_count <= 0xFFFF,
            ;
            let o = oam_cursor_v + (j as u64) * 6;
            if o + 6 > bl as u64 {
                proof {
                    assert(want.len() == j) by (nonlinear_arith)
                        requires
                            o == oam_cursor_v + j * 6,
                            o + 6 > bl,
                            j <= want.len(),
                            want.len() <= oam_count,
                            oam_cursor_v + 6 > bl ==> want.len() == 0,
                            oam_cursor_v + 6 <= bl ==> want.len() == if oam_count <= (bl - oam_cursor_v) / 6 { oam_count as int } else { (bl - oam_cursor_v) / 6 },
                    ;
                    assert(want.subrange(0, j as int) =~= want);
                }
                break;
            }
            let oi = o as usize;
            let a0 = le16_exec(block, oi);
            let a1 = le16_exec(block, oi + 2);
            let a2 = le16_exec(block, oi + 4);
            let obj = oam_from(a0, a1, a2);
            proof {
                assert(j < want.len()) by (nonlinear_arith)
                    requires
                        o == oam_cursor_v + j * 6,
                        o + 6 <= bl,
                        j < oam_count,
                        oam_cursor_v + 6 > bl ==> want.len() == 0,
                        oam_cursor_v + 6 <= bl ==> want.len() == if oam_count <= (bl - oam_cursor_v) / 6 { oam_count as int } else { (bl - oam_cursor_v) / 6 },
                ;
                assert(want[j as int] == obj);
            }
            oams.push(obj);
            j = j + 1;
            assert(oams@ =~= want.subrange(0, j as int));
        }
        proof {
            assert(oams@ =~= want);
        }
        assert(oam_cursor_v + oam_count * 6 <= 0x20 + 0x10 * 0xFFFF + 6 * 0xFFFF * (i + 1)) by (nonlinear_arith)
            requires
                oam_cursor_v <= 0x20 + 0x10 * 0xFFFF + 6 * 0xFFFF * i,
                oam_count <= 0xFFFF,
        ;
        oam_cursor_v = oam_cursor_v + (oam_count as u64) * 6;
        cells.push(NcerCell { oams, bounds });
        i = i + 1;
    }
    let n = Ncer { mapping_type, cells };
    assert(n@.1 =~= ncer_of(file@).1);
    Ok(n)
}

} // verus!
