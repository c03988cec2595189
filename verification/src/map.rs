//! Gen 4 (DPPt/HGSS) field map formats: the map matrix (grid of chunk ids), the
//! arm9 map-header table and land-data chunks.
use crate::bytes::{fits, has_tag, le16, le16_exec, le32, le32_exec, tag_at};
use crate::text::{lossy_text, text_from_bytes};
use vstd::prelude::*;

verus! {

/// A parsed map matrix: a `width` x `height` grid referencing land-data chunk
/// ids (0xFFFF marks an empty cell).
#[derive(Clone, Debug)]
pub struct MapMatrix {
    pub width: u32,
    pub height: u32,
    pub name: String,
    /// Row-major land-data chunk id per cell (0xFFFF = empty).
    pub land_ids: Vec<u16>,
    /// Row-major per-cell altitude; empty if the matrix carries no altitude layer.
    pub altitudes: Vec<u8>,
    /// Row-major per-cell map-header id; empty if the matrix carries no header layer.
    pub headers: Vec<u16>,
}

/// `n` little-endian u16 values starting at `at`.
pub open spec fn words(d: Seq<u8>, at: int, n: int) -> Seq<u16> {
    Seq::new(n as nat, |i: int| le16(d, at + 2 * i) as u16)
}

/// A map matrix as plain values: width, height, name, land ids, altitudes, header ids.
pub type MatrixModel = (u32, u32, Seq<char>, Seq<u16>, Seq<u8>, Seq<u16>);

/// The map matrix stored in `d`, if it is complete.
pub open spec fn matrix_model(d: Seq<u8>) -> Option<MatrixModel> {
    if d.len() < 5 {
        None
    } else {
        let w = d[0] as int;
        let h = d[1] as int;
        let cells = w * h;
        let nl = d[4] as int;
        if 5 + nl > d.len() {
            None
        } else {
            let p1 = 5 + nl;
            let hdr_ok = d[2] == 0 || p1 + 2 * cells <= d.len();
            let p2 = if d[2] != 0 { p1 + 2 * cells } else { p1 };
            let alt_ok = d[3] == 0 || p2 + cells <= d.len();
            let p3 = if d[3] != 0 { p2 + cells } else { p2 };
            if !hdr_ok || !alt_ok || p3 + 2 * cells > d.len() {
                None
            } else {
                Some((
                    w as u32,
                    h as u32,
                    lossy_text(d.subrange(5, p1)),
                    words(d, p3, cells),
                    if d[3] != 0 { d.subrange(p2, p2 + cells) } else { seq![] },
                    if d[2] != 0 { words(d, p1, cells) } else { seq![] },
                ))
            }
        }
    }
}

impl MapMatrix {
    /// The matrix as plain values.
    pub open spec fn model(&self) -> MatrixModel {
        (self.width, self.height, self.name@, self.land_ids@, self.altitudes@, self.headers@)
    }

    /// The land-data chunk id at cell (x, y), unless the cell is empty or outside the grid.
    pub fn at(&self, x: u32, y: u32) -> (r: Option<u16>)
        requires
            x < self.width && y < self.height ==> y * self.width + x < self.land_ids@.len() && y * self.width + x <= u32::MAX,
        ensures
            r == if x < self.width && y < self.height && self.land_ids@[y * self.width + x] != 0xFFFF {
                Some(self.land_ids@[y * self.width + x])
            } else {
                None::<u16>
            },
    {
        if x >= self.width || y >= self.height {
            return None;
        }
        proof {
            assert(y * self.width <= y * self.width + x);
        }
        let id = self.land_ids[(y * self.width + x) as usize];
        if id != 0xFFFF { Some(id) } else { None }
    }
}

fn read_words(d: &[u8], at: usize, n: usize) -> (v: Vec<u16>)
    requires
        at + 2 * n <= d@.len(),
    ensures
        v@ == words(d@, at as int, n as int),
{
    let mut v: Vec<u16> = Vec::with_capacity(n);
    let dl = d.len();
    let mut i: usize = 0;
    while i < n
        invariant
            dl == d@.len(),
            at + 2 * n <= d@.len(),
            i <= n,
            v@ == words(d@, at as int, i as int),
        decreases n - i,
    {
        v.push(le16_exec(d, at + i * 2));
        i = i + 1;
        assert(v@ =~= words(d@, at as int, i as int));
    }
    v
}

/// Parse a map matrix entry (as found in the `map_matrix` NARC).
pub fn parse_map_matrix(d: &[u8]) -> (r: Option<MapMatrix>)
    ensures
        match matrix_model(d@) {
            Some(m) => r matches Some(mm) && mm.model() == m,
            None => r is None,
        },
{
    if d.len() < 5 {
        return None;
    }
    let width = d[0] as usize;
    let height = d[1] as usize;
    let has_headers = d[2] != 0;
    let has_altitude = d[3] != 0;
    assert(width * height <= 255 * 255) by (nonlinear_arith)
        requires
            width <= 255,
            height <= 255,
    ;
    let cells = width * height;
    let name_len = d[4] as usize;
    if name_len > d.len() - 5 {
        return None;
    }
    let name = text_from_bytes(&d[5..5 + name_len]);
    let mut pos = 5 + name_len;
    let headers = if has_headers {
        if 2 * cells > d.len() - pos {
            return None;
        }
        let out = read_words(d, pos, cells);
        pos = pos + 2 * cells;
        out
    } else {
        Vec::new()
    };
    let altitudes = if has_altitude {
        if cells > d.len() - pos {
            return None;
        }
        let alt = vstd::slice::slice_to_vec(&d[pos..pos + cells]);
        pos = pos + cells;
        alt
    } else {
        Vec::new()
    };
    if 2 * cells > d.len() - pos {
        return None;
    }
    let land_ids = read_words(d, pos, cells);
    Some(MapMatrix { width: width as u32, height: height as u32, name, land_ids, altitudes, headers })
}

/// Layout of a game's map-header struct within the arm9 table.
#[derive(Copy, Clone)]
pub struct MapHeaderLayout {
    pub stride: usize,
    pub area_off: usize,
    pub matrix_off: usize,
}

/// The largest id of a non-empty list.
pub open spec fn max_id(ids: Seq<u16>) -> int
    decreases ids.len(),
{
    if ids.len() == 0 {
        0
    } else if ids.len() == 1 {
        ids[0] as int
    } else {
        let m = max_id(ids.drop_last());
        if ids.last() > m { ids.last() as int } else { m }
    }
}

/// The (area id, matrix id) of header `id` in a table starting at `base`, if
/// the table reaches that far.
pub open spec fn header_entry(arm9: Seq<u8>, l: MapHeaderLayout, base: int, id: int) -> Option<(u8, int)> {
    let o = base + id * l.stride;
    if o + l.area_off < arm9.len() && o + l.matrix_off + 1 < arm9.len() {
        Some((arm9[o + l.area_off], le16(arm9, o + l.matrix_off)))
    } else {
        None
    }
}

/// Whether every overworld header at table start `base` maps to matrix 0 with an area below 106.
pub open spec fn table_fits(arm9: Seq<u8>, ids: Seq<u16>, l: MapHeaderLayout, base: int) -> bool {
    forall|i: int| 0 <= i < ids.len() ==> (header_entry(arm9, l, base, #[trigger] ids[i] as int) matches Some((area, m))
        && m == 0 && area < 106)
}

/// The first 4-aligned table start from `base` at which the overworld headers fit.
pub open spec fn table_start_from(arm9: Seq<u8>, ids: Seq<u16>, l: MapHeaderLayout, base: int) -> Option<int>
    decreases arm9.len() + 4 - base,
{
    if base < 0 || base + (max_id(ids) + 1) * l.stride > arm9.len() {
        None
    } else if table_fits(arm9, ids, l, base) {
        Some(base)
    } else {
        table_start_from(arm9, ids, l, base + 4)
    }
}

/// Area id of each map header 0..=max, read from the table located by the
/// overworld header ids.
pub open spec fn header_areas(arm9: Seq<u8>, ids: Seq<u16>, l: MapHeaderLayout) -> Option<Seq<u8>> {
    if ids.len() == 0 {
        None
    } else {
        match table_start_from(arm9, ids, l, 0) {
            None => None,
            Some(base) => Some(Seq::new((max_id(ids) + 1) as nat, |id: int|
                match header_entry(arm9, l, base, id) {
                    Some((a, _)) => a,
                    None => 0u8,
                })),
        }
    }
}

fn max_of(ids: &[u16]) -> (m: u16)
    requires
        ids@.len() > 0,
    ensures
        m == max_id(ids@),
{
    let mut m = ids[0];
    let mut i: usize = 1;
    while i < ids.len()
        invariant
            1 <= i <= ids@.len(),
            m == max_id(ids@.subrange(0, i as int)),
        decreases ids@.len() - i,
    {
        proof {
            assert(ids@.subrange(0, i + 1).drop_last() =~= ids@.subrange(0, i as int));
        }
        if ids[i] > m {
            m = ids[i];
        }
        i = i + 1;
    }
    assert(ids@.subrange(0, i as int) =~= ids@);
    m
}

fn entry_at(arm9: &[u8], l: MapHeaderLayout, base: usize, id: usize) -> (r: Option<(u8, u16)>)
    requires
        base + id * l.stride + l.area_off + l.matrix_off + 2 <= usize::MAX,
    ensures
        match header_entry(arm9@, l, base as int, id as int) {
            Some((a, m)) => r == Some((a, m as u16)),
            None => r is None,
        },
{
    let o = base + id * l.stride;
    if o + l.area_off < arm9.len() && o + l.matrix_off + 1 < arm9.len() {
        Some((arm9[o + l.area_off], le16_exec(arm9, o + l.matrix_off)))
    } else {
        None
    }
}

/// Locate the map-header table inside a decompressed arm9 and return the
/// area-data id for each map-header id. `overworld_header_ids` are the distinct
/// header ids used by the overworld matrix (all map to matrix 0); they pin the
/// exact, 4-aligned table start. Returns `area_by_header[header_id]`.
pub fn map_header_areas(arm9: &[u8], overworld_header_ids: &[u16], layout: MapHeaderLayout) -> (r: Option<Vec<u8>>)
    requires
        arm9@.len() + 4 + (max_id(overworld_header_ids@) + 1) * layout.stride + layout.area_off + layout.matrix_off + 2
            <= usize::MAX,
    ensures
        match header_areas(arm9@, overworld_header_ids@, layout) {
            Some(a) => r matches Some(v) && v@ == a,
            None => r is None,
        },
{
    let ids = overworld_header_ids;
    if ids.len() == 0 {
        return None;
    }
    let max_id_v = max_of(ids) as usize;
    let stride = layout.stride;
    proof {
        lemma_max_id(ids@, 0);
        assert(0 <= (max_id(ids@) + 1) * stride) by (nonlinear_arith)
            requires
                max_id(ids@) >= 0,
        ;
        assert(max_id_v * stride <= (max_id(ids@) + 1) * stride) by (nonlinear_arith)
            requires
                max_id_v == max_id(ids@),
        ;
    }
    let span = (max_id_v + 1) * stride;
    let mut base: usize = 0;
    let ghost goal = table_start_from(arm9@, ids@, layout, 0);
    while base <= arm9.len() && span <= arm9.len() - base
        invariant
            ids@ == overworld_header_ids@,
            goal == table_start_from(arm9@, ids@, layout, 0),
            goal == table_start_from(arm9@, ids@, layout, base as int),
            span == (max_id(ids@) + 1) * stride,
            max_id_v == max_id(ids@),
            max_id_v <= 0xFFFF,
            stride == layout.stride,
            base <= arm9@.len() + 4,
            arm9@.len() + 4 + span + layout.area_off + layout.matrix_off + 2 <= usize::MAX,
            ids@.len() > 0,
        decreases arm9@.len() + 4 - base,
    {
        let mut good = true;
        let mut i: usize = 0;
        while i < ids.len()
            invariant
                i <= ids@.len(),
                max_id_v == max_id(ids@),
                max_id_v <= 0xFFFF,
                base + span <= arm9@.len(),
                span == (max_id(ids@) + 1) * layout.stride,
                arm9@.len() + 4 + span + layout.area_off + layout.matrix_off + 2 <= usize::MAX,
                good == forall|j: int| 0 <= j < i ==> (header_entry(arm9@, layout, base as int, #[trigger] ids@[j] as int)
                    matches Some((area, m)) && m == 0 && area < 106),
            decreases ids@.len() - i,
        {
            proof {
                lemma_max_id(ids@, i as int);
                assert(ids@[i as int] * layout.stride <= (max_id(ids@) + 1) * layout.stride) by (nonlinear_arith)
                    requires
                        ids@[i as int] <= max_id(ids@),
                ;
            }
            let e = entry_at(arm9, layout, base, ids[i] as usize);
            let ok = match e {
                Some((area, m)) => m == 0 && area < 106,
                None => false,
            };
            good = good && ok;
            i = i + 1;
        }
        if good {
            assert(goal == Some(base as int));
            let mut areas: Vec<u8> = Vec::with_capacity(max_id_v + 1);
            let mut id: usize = 0;
            while id <= max_id_v
                invariant
                    ids@ == overworld_header_ids@,
                    goal == table_start_from(arm9@, ids@, layout, 0),
                    goal == Some(base as int),
                    ids@.len() > 0,
                    id <= max_id_v + 1,
                    max_id_v == max_id(ids@),
                    max_id_v <= 0xFFFF,
                    base + span <= arm9@.len(),
                    span == (max_id(ids@) + 1) * layout.stride,
                    arm9@.len() + 4 + span + layout.area_off + layout.matrix_off + 2 <= usize::MAX,
                    areas@ == Seq::new(id as nat, |k: int| match header_entry(arm9@, layout, base as int, k) {
                        Some((a, _)) => a,
                        None => 0u8,
                    }),
                decreases max_id_v + 1 - id,
            {
                proof {
                    assert(id * layout.stride <= (max_id(ids@) + 1) * layout.stride) by (nonlinear_arith)
                        requires
                            id <= max_id(ids@),
                    ;
                }
                let a = match entry_at(arm9, layout, base, id) {
                    Some((a, _)) => a,
                    None => 0,
                };
                areas.push(a);
                id = id + 1;
                assert(areas@ =~= Seq::new(id as nat, |k: int| match header_entry(arm9@, layout, base as int, k) {
                    Some((a, _)) => a,
                    None => 0u8,
                }));
            }
            assert(areas@ =~= header_areas(arm9@, ids@, layout).unwrap());
            return Some(areas);
        }
        base = base + 4;
    }
    None
}

pub proof fn lemma_max_id(ids: Seq<u16>, i: int)
    requires
        0 <= i < ids.len(),
    ensures
        ids[i] <= max_id(ids),
        0 <= max_id(ids) <= 0xFFFF,
    decreases ids.len(),
{
    if ids.len() > 1 {
        if i < ids.len() - 1 {
            lemma_max_id(ids.drop_last(), i);
        } else {
            lemma_max_id(ids.drop_last(), 0);
        }
    }
}

/// Index of the first "BMD0" stamp in `s` at or after `i`.
pub open spec fn model_stamp_from(s: Seq<u8>, i: int) -> Option<int>
    decreases s.len() - i,
{
    if i < 0 || i + 4 > s.len() {
        None
    } else if tag_at(s, i, 66, 77, 68, 48) {
        Some(i)
    } else {
        model_stamp_from(s, i + 1)
    }
}

/// The terrain model of a land-data chunk: `model size` bytes (the third header
/// word) from the first "BMD0" stamp.
pub open spec fn terrain_bytes(chunk: Seq<u8>) -> Option<Seq<u8>> {
    if chunk.len() < 16 {
        None
    } else {
        match model_stamp_from(chunk, 0) {
            None => None,
            Some(off) => if off + le32(chunk, 8) <= chunk.len() {
                Some(chunk.subrange(off, off + le32(chunk, 8)))
            } else {
                None
            },
        }
    }
}

proof fn lemma_model_stamp_bounds(s: Seq<u8>, i: int)
    ensures
        model_stamp_from(s, i) matches Some(k) ==> 0 <= k && k + 4 <= s.len(),
    decreases s.len() - i,
{
    if !(i < 0 || i + 4 > s.len()) && !tag_at(s, i, 66, 77, 68, 48) {
        lemma_model_stamp_bounds(s, i + 1);
    }
}

/// Position of the first "BMD0" stamp in `s`.
fn find_model_stamp(s: &[u8]) -> (r: Option<usize>)
    ensures
        match model_stamp_from(s@, 0) {
            Some(i) => r == Some(i as usize),
            None => r is None,
        },
{
    let mut i: usize = 0;
    while i < s.len() && s.len() - i >= 4
        invariant
            model_stamp_from(s@, 0) == model_stamp_from(s@, i as int),
        decreases s@.len() - i,
    {
        if has_tag(s, i, 66, 77, 68, 48) {
            return Some(i);
        }
        i = i + 1;
    }
    None
}

/// Extract the terrain NSBMD model embedded in a land-data chunk. The chunk
/// header is four u32 section sizes (attributes, buildings, model, BDHC); the
/// model section is a "BMD0" container.
pub fn terrain_model(chunk: &[u8]) -> (r: Option<&[u8]>)
    ensures
        match terrain_bytes(chunk@) {
            Some(b) => r matches Some(s) && s@ == b,
            None => r is None,
        },
{
    if chunk.len() < 16 {
        return None;
    }
    let model_size = le32_exec(chunk, 8) as usize;
    proof {
        lemma_model_stamp_bounds(chunk@, 0);
    }
    let off = match find_model_stamp(chunk) {
        Some(o) => o,
        None => {
            return None;
        },
    };
    if model_size > chunk.len() - off {
        return None;
    }
    Some(&chunk[off..off + model_size])
}


/// Bytes per building entry of a land-data chunk.
pub const BUILDING_ENTRY: usize = 48;

/// A building or prop placed on a map: which build model to draw and where.
/// Position, rotation and scale are fx32 fixed-point values (4096 is 1.0).
#[derive(Clone, Copy, Debug, PartialEq, Eq)]
pub struct Building {
    pub model_id: u16,
    pub position: (i32, i32, i32),
    pub rotation: (i32, i32, i32),
    pub scale: (i32, i32, i32),
}

/// A 32-bit word read as signed.
pub open spec fn signed32(v: int) -> int {
    if v >= 0x8000_0000 { v - 0x1_0000_0000 } else { v }
}

/// Three signed words from `at`.
pub open spec fn fx_triple(c: Seq<u8>, at: int) -> (i32, i32, i32) {
    (signed32(le32(c, at)) as i32, signed32(le32(c, at + 4)) as i32, signed32(le32(c, at + 8)) as i32)
}

/// An fx32 scale between zero (excluded) and 64 (included).
pub open spec fn sane_scale(v: int) -> bool {
    0 < signed32(v) <= 64 * 4096
}

/// Whether the 48 bytes at `e` look like a building entry: a model id below
/// 4096 and a positive scale of at most 64 on every axis.
pub open spec fn building_entry_ok(c: Seq<u8>, e: int) -> bool {
    &&& 0 <= signed32(le32(c, e)) < 4096
    &&& sane_scale(le32(c, e + 28))
    &&& sane_scale(le32(c, e + 32))
    &&& sane_scale(le32(c, e + 36))
}

/// The building entry at `e`.
pub open spec fn building_at(c: Seq<u8>, e: int) -> Building {
    Building {
        model_id: le32(c, e) as u16,
        position: fx_triple(c, e + 4),
        rotation: fx_triple(c, e + 16),
        scale: fx_triple(c, e + 28),
    }
}

/// The entries walked backwards from `off` while they stay at or above `lo`
/// and look plausible, nearest first.
pub open spec fn buildings_back(c: Seq<u8>, lo: int, off: int) -> Seq<Building>
    decreases off,
{
    if off >= lo + 48 && lo >= 0 && building_entry_ok(c, off - 48) {
        seq![building_at(c, off - 48)] + buildings_back(c, lo, off - 48)
    } else {
        seq![]
    }
}

/// The buildings of a land-data chunk, in file order: the entries right before
/// the first "BMD0" stamp, back to the end of the attribute section.
pub open spec fn chunk_buildings(c: Seq<u8>) -> Seq<Building> {
    if c.len() < 16 {
        seq![]
    } else {
        match model_stamp_from(c, 0) {
            None => seq![],
            Some(off) => buildings_back(c, 16 + le32(c, 0), off).reverse(),
        }
    }
}

fn signed_word(v: u32) -> (r: i32)
    ensures
        r == signed32(v as int),
{
    if v >= 0x8000_0000 {
        (v as i64 - 0x1_0000_0000i64) as i32
    } else {
        v as i32
    }
}

fn triple_at(c: &[u8], at: usize) -> (t: (i32, i32, i32))
    requires
        fits(c@, at as int, 12),
    ensures
        t == fx_triple(c@, at as int),
{
    let _n = c.len();
    (signed_word(le32_exec(c, at)), signed_word(le32_exec(c, at + 4)), signed_word(le32_exec(c, at + 8)))
}

/// Parse the buildings placed on a land-data chunk. The entries sit right
/// before the terrain model: in DPPt they fill the buildings section, while
/// HGSS prefixes them with a second permission grid. Both are handled by
/// walking 48-byte entries backwards from the model, stopping at the first
/// slot that is not a plausible entry.
pub fn parse_buildings(chunk: &[u8]) -> (out: Vec<Building>)
    ensures
        out@ == chunk_buildings(chunk@),
{
    if chunk.len() < 16 {
        return Vec::new();
    }
    let attrs = le32_exec(chunk, 0) as u64;
    let lo: u64 = 16 + attrs;
    proof {
        lemma_model_stamp_bounds(chunk@, 0);
    }
    let model_off = match find_model_stamp(chunk) {
        Some(o) => o,
        None => {
            return Vec::new();
        },
    };
    let ghost goal = buildings_back(chunk@, lo as int, model_off as int);
    let mut back: Vec<Building> = Vec::new();
    let mut off: usize = model_off;
    let mut stopped = false;
    while !stopped && off as u64 >= lo + 48
        invariant
            stopped ==> buildings_back(chunk@, lo as int, off as int) =~= Seq::<Building>::empty(),
            lo == 16 + le32(chunk@, 0),
            off <= model_off,
            model_off + 4 <= chunk@.len(),
            goal == buildings_back(chunk@, lo as int, model_off as int),
            goal == back@ + buildings_back(chunk@, lo as int, off as int),
        decreases 2 * off + if stopped { 0int } else { 1int },
    {
        let e = off - BUILDING_ENTRY;
        let id = le32_exec(chunk, e);
        let sx = le32_exec(chunk, e + 28);
        let sy = le32_exec(chunk, e + 32);
        let sz = le32_exec(chunk, e + 36);
        let plausible = id < 4096 && 0 < sx && sx <= 262144 && 0 < sy && sy <= 262144 && 0 < sz && sz <= 262144;
        assert(plausible == building_entry_ok(chunk@, e as int));
        if !plausible {
            stopped = true;
            continue;
        }
        let b = Building {
            model_id: id as u16,
            position: triple_at(chunk, e + 4),
            rotation: triple_at(chunk, e + 16),
            scale: triple_at(chunk, e + 28),
        };
        proof {
            assert(b == building_at(chunk@, e as int));
            assert(back@.push(b) + buildings_back(chunk@, lo as int, e as int) =~= back@ + buildings_back(chunk@, lo as int, off as int));
        }
        back.push(b);
        off = e;
    }
    assert(buildings_back(chunk@, lo as int, off as int) =~= Seq::<Building>::empty());
    assert(back@ =~= goal);
    let mut out: Vec<Building> = Vec::new();
    let mut k: usize = back.len();
    while k > 0
        invariant
            k <= back.len(),
            out@ =~= back@.subrange(k as int, back.len() as int).reverse(),
        decreases k,
    {
        k = k - 1;
        out.push(back[k]);
        proof {
            assert(back@.subrange(k as int, back.len() as int).reverse() =~= back@.subrange(k + 1, back.len() as int).reverse().push(back[k as int]));
        }
    }
    assert(back@.subrange(0, back.len() as int) =~= back@);
    out
}


/// Whether `b` looks like a real building: a model id below 4096 and a
/// positive scale of at most 64 (fx32) on every axis.
pub open spec fn plausible(b: Building) -> bool {
    &&& b.model_id < 4096
    &&& 0 < b.scale.0 <= 64 * 4096
    &&& 0 < b.scale.1 <= 64 * 4096
    &&& 0 < b.scale.2 <= 64 * 4096
}

proof fn lemma_back_plausible(c: Seq<u8>, lo: int, off: int)
    ensures
        forall|i: int| 0 <= i < buildings_back(c, lo, off).len() ==> plausible(#[trigger] buildings_back(c, lo, off)[i]),
    decreases off,
{
    if off >= lo + 48 && lo >= 0 && building_entry_ok(c, off - 48) {
        lemma_back_plausible(c, lo, off - 48);
        let rest = buildings_back(c, lo, off - 48);
        assert forall|i: int| 0 <= i < buildings_back(c, lo, off).len() implies plausible(#[trigger] buildings_back(c, lo, off)[i]) by {
            if i > 0 {
                assert(buildings_back(c, lo, off)[i] == rest[i - 1]);
            }
        }
    }
}

/// Every building parsed from a chunk is plausible: the backwards walk stops
/// at the first slot that is not.
pub proof fn lemma_chunk_buildings_plausible(c: Seq<u8>)
    ensures
        forall|i: int| 0 <= i < chunk_buildings(c).len() ==> plausible(#[trigger] chunk_buildings(c)[i]),
{
    if c.len() >= 16 {
        if let Some(off) = model_stamp_from(c, 0) {
            let b = buildings_back(c, 16 + le32(c, 0), off);
            lemma_back_plausible(c, 16 + le32(c, 0), off);
            assert forall|i: int| 0 <= i < chunk_buildings(c).len() implies plausible(#[trigger] chunk_buildings(c)[i]) by {
                assert(chunk_buildings(c)[i] == b[b.len() - 1 - i]);
            }
        }
    }
}

/// Every building of a chunk has a model id below 4096.
pub proof fn lemma_chunk_building_ids(c: Seq<u8>)
    ensures
        forall|i: int| 0 <= i < chunk_buildings(c).len() ==> (#[trigger] chunk_buildings(c)[i]).model_id < 4096,
{
    lemma_chunk_buildings_plausible(c);
    assert forall|i: int| 0 <= i < chunk_buildings(c).len() implies (#[trigger] chunk_buildings(c)[i]).model_id < 4096 by {
        assert(plausible(chunk_buildings(c)[i]));
    }
}

} // verus!
