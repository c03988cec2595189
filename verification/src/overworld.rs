//! Field-map assembly planning for the Gen 4 games: locating the overworld
//! archives, resolving the texture set each land-data chunk is drawn with, and
//! the buildings placed on each chunk.
use crate::blz::{blz_compressed, blz_decode, blz_decoded, inc_len};
use crate::bytes::{contains_bytes, has_sub, le16, le16_exec};
use crate::map::{lemma_chunk_building_ids, chunk_buildings, parse_buildings, Building, terrain_bytes, terrain_model, header_areas, lemma_max_id, map_header_areas, matrix_model, max_id, parse_map_matrix, MapHeaderLayout, MapMatrix};
use crate::narc::{archive_file, archive_model, entry_bytes, Narc};
use crate::rom::{arm9_bytes, path_file, Rom};
use crate::signature::{format_of, is_narc, Signature};
use vstd::prelude::*;
use vstd::string::StringExecFns;
use vstd::utf8::encode_utf8;
use std::collections::{HashMap, HashSet};

verus! {

/// The games whose overworld layout is understood.
#[derive(Copy, Clone, PartialEq, Eq, Structural, Debug)]
pub enum MapGame {
    HeartGoldSoulSilver,
    DiamondPearl,
    Platinum,
}

/// The game a game code belongs to (by its first three bytes).
pub open spec fn map_game(code: Seq<char>) -> Option<MapGame> {
    let b = encode_utf8(code);
    if b.len() < 3 {
        None
    } else if b[0] == 73 && b[1] == 80 && (b[2] == 75 || b[2] == 71) {
        Some(MapGame::HeartGoldSoulSilver)
    } else if (b[0] == 65 && b[1] == 68 && b[2] == 65) || (b[0] == 65 && b[1] == 80 && b[2] == 65) {
        Some(MapGame::DiamondPearl)
    } else if b[0] == 67 && b[1] == 80 && b[2] == 85 {
        Some(MapGame::Platinum)
    } else {
        None
    }
}

/// The overworld archives of a game.
pub struct MapPaths {
    pub matrix: &'static str,
    pub land: &'static str,
    pub texset: &'static str,
    pub area_data: &'static str,
    /// Build-model archive: the models for buildings and props.
    pub build: &'static str,
    /// Prop-texture archive: one texture set per area, indexed by the area's
    /// prop archive id.
    pub prop_texset: &'static str,
    pub layout: MapHeaderLayout,
}

/// The map-header layout of a game: HGSS keeps the area id at byte 1 and the
/// matrix id at byte 4 of each 24-byte header; DP and Pt at bytes 0 and 2.
pub open spec fn layout_of(g: MapGame) -> MapHeaderLayout {
    match g {
        MapGame::HeartGoldSoulSilver => MapHeaderLayout { stride: 24, area_off: 1, matrix_off: 4 },
        _ => MapHeaderLayout { stride: 24, area_off: 0, matrix_off: 2 },
    }
}

/// The archive paths of a game: (matrix, land data, map textures, area data,
/// build models, prop textures).
pub open spec fn paths_of(g: MapGame) -> (Seq<char>, Seq<char>, Seq<char>, Seq<char>, Seq<char>, Seq<char>) {
    match g {
        MapGame::HeartGoldSoulSilver => ("a/0/4/1"@, "a/0/6/5"@, "a/0/4/4"@, "a/0/4/2"@, "a/0/4/0"@, "a/0/7/0"@),
        MapGame::DiamondPearl => (
            "fielddata/mapmatrix/map_matrix.narc"@,
            "fielddata/land_data/land_data_release.narc"@,
            "fielddata/areadata/area_map_tex/map_tex_set.narc"@,
            "fielddata/areadata/area_data.narc"@,
            "fielddata/build_model/build_model.narc"@,
            "fielddata/areadata/area_build_model/areabm_texset.narc"@,
        ),
        MapGame::Platinum => (
            "fielddata/mapmatrix/map_matrix.narc"@,
            "fielddata/land_data/land_data.narc"@,
            "fielddata/areadata/area_map_tex/map_tex_set.narc"@,
            "fielddata/areadata/area_data.narc"@,
            "fielddata/build_model/build_model.narc"@,
            "fielddata/areadata/area_build_model/areabm_texset.narc"@,
        ),
    }
}

impl MapPaths {
    pub open spec fn texts(&self) -> (Seq<char>, Seq<char>, Seq<char>, Seq<char>, Seq<char>, Seq<char>) {
        (self.matrix@, self.land@, self.texset@, self.area_data@, self.build@, self.prop_texset@)
    }
}

fn game_of(gamecode: &str) -> (g: Option<MapGame>)
    ensures
        g == map_game(gamecode@),
{
    let b = gamecode.as_bytes();
    if b.len() < 3 {
        None
    } else if b[0] == 73 && b[1] == 80 && (b[2] == 75 || b[2] == 71) {
        Some(MapGame::HeartGoldSoulSilver)
    } else if (b[0] == 65 && b[1] == 68 && b[2] == 65) || (b[0] == 65 && b[1] == 80 && b[2] == 65) {
        Some(MapGame::DiamondPearl)
    } else if b[0] == 67 && b[1] == 80 && b[2] == 85 {
        Some(MapGame::Platinum)
    } else {
        None
    }
}

/// The overworld archives of the game with code `gamecode`, if its map
/// structure is understood.
pub fn map_paths(gamecode: &str) -> (r: Option<MapPaths>)
    ensures
        match map_game(gamecode@) {
            Some(g) => r matches Some(p) && p.texts() == paths_of(g) && p.layout == layout_of(g),
            None => r is None,
        },
{
    let hgss = MapHeaderLayout { stride: 24, area_off: 1, matrix_off: 4 };
    let dppt = MapHeaderLayout { stride: 24, area_off: 0, matrix_off: 2 };
    match game_of(gamecode) {
        Some(MapGame::HeartGoldSoulSilver) => Some(MapPaths {
            matrix: "a/0/4/1",
            land: "a/0/6/5",
            texset: "a/0/4/4",
            area_data: "a/0/4/2",
            build: "a/0/4/0",
            prop_texset: "a/0/7/0",
            layout: hgss,
        }),
        Some(MapGame::DiamondPearl) => Some(MapPaths {
            matrix: "fielddata/mapmatrix/map_matrix.narc",
            land: "fielddata/land_data/land_data_release.narc",
            texset: "fielddata/areadata/area_map_tex/map_tex_set.narc",
            area_data: "fielddata/areadata/area_data.narc",
            build: "fielddata/build_model/build_model.narc",
            prop_texset: "fielddata/areadata/area_build_model/areabm_texset.narc",
            layout: dppt,
        }),
        Some(MapGame::Platinum) => Some(MapPaths {
            matrix: "fielddata/mapmatrix/map_matrix.narc",
            land: "fielddata/land_data/land_data.narc",
            texset: "fielddata/areadata/area_map_tex/map_tex_set.narc",
            area_data: "fielddata/areadata/area_data.narc",
            build: "fielddata/build_model/build_model.narc",
            prop_texset: "fielddata/areadata/area_build_model/areabm_texset.narc",
            layout: dppt,
        }),
        None => None,
    }
}


/// Where a game's overworld lives: its archives and the index of the main
/// matrix within the matrix archive.
pub struct MapSource {
    pub matrix_path: String,
    pub matrix_index: usize,
    pub land_path: String,
    pub texset_path: String,
    pub area_data_path: String,
    pub build_path: String,
    pub prop_texset_path: String,
    pub layout: MapHeaderLayout,
}

impl MapSource {
    pub open spec fn texts(&self) -> (Seq<char>, Seq<char>, Seq<char>, Seq<char>, Seq<char>, Seq<char>) {
        (self.matrix_path@, self.land_path@, self.texset_path@, self.area_data_path@, self.build_path@, self.prop_texset_path@)
    }
}

/// Cell count of matrix `i` of the archive `d` (0 when it does not parse).
pub open spec fn matrix_cells(d: Seq<u8>, i: int) -> int {
    match archive_file(d, i) {
        Some(f) => match matrix_model(f) {
            Some(m) => m.0 * m.1,
            None => 0,
        },
        None => 0,
    }
}

/// (index, cells) of the first matrix with the most cells among the first `k`.
pub open spec fn best_matrix_upto(d: Seq<u8>, k: int) -> (int, int)
    decreases k,
{
    if k <= 0 {
        (0, 0)
    } else {
        let b = best_matrix_upto(d, k - 1);
        if matrix_cells(d, k - 1) > b.1 { (k - 1, matrix_cells(d, k - 1)) } else { b }
    }
}

/// The game and main matrix index of `rom`'s overworld: the matrix archive
/// must be a NARC, the land-data archive must exist, and the largest matrix
/// (the first of equal ones) must have cells.
pub open spec fn overworld_of(rom: Rom) -> Option<(MapGame, int)> {
    match map_game(rom.hdr().gamecode@) {
        None => None,
        Some(g) => match path_file(rom, paths_of(g).0) {
            None => None,
            Some(md) => if format_of(md) != Signature::Narc || path_file(rom, paths_of(g).1) is None {
                None
            } else {
                match archive_model(md) {
                    Err(_) => None,
                    Ok(m) => {
                        let b = best_matrix_upto(md, m.2.len() as int);
                        if b.1 == 0 { None } else { Some((g, b.0)) }
                    },
                }
            },
        },
    }
}

/// Locate a game's overworld. Restricted to the DPPt/HGSS map structure.
pub fn detect_map(rom: &Rom) -> (r: Option<MapSource>)
    ensures
        match overworld_of(*rom) {
            Some((g, i)) => r matches Some(s) && s.texts() == paths_of(g) && s.matrix_index == i && s.layout == layout_of(g),
            None => r is None,
        },
{
    let p = match map_paths(rom.header().gamecode.as_str()) {
        Some(p) => p,
        None => {
            return None;
        },
    };
    let matrix_data = match rom.file_by_path(p.matrix) {
        Ok(d) => d,
        Err(_) => {
            return None;
        },
    };
    if !is_narc(matrix_data) || rom.file_by_path(p.land).is_err() {
        return None;
    }
    let matrix_narc = match Narc::parse(matrix_data) {
        Ok(n) => n,
        Err(_) => {
            return None;
        },
    };
    let ghost md = matrix_data@;
    let n = matrix_narc.file_count();
    let mut matrix_index: usize = 0;
    let mut best_cells: usize = 0;
    let mut i: usize = 0;
    while i < n
        invariant
            matrix_narc.parsed_from(md),
            n == matrix_narc.entries().len(),
            i <= n,
            (matrix_index as int, best_cells as int) == best_matrix_upto(md, i as int),
            best_cells <= 255 * 255,
        decreases n - i,
    {
        proof {
            let m = archive_model(md)->Ok_0;
            assert(entry_bytes(matrix_narc.image(), matrix_narc.entries(), i as int) == entry_bytes(md.subrange(m.0, m.1), m.2, i as int));
        }
        if let Ok(s) = matrix_narc.file(i) {
            if let Some(m) = parse_map_matrix(s) {
                let w = m.width as usize;
                let h = m.height as usize;
                assert(w <= 255 && h <= 255);
                assert(w * h <= 255 * 255) by (nonlinear_arith)
                    requires
                        w <= 255,
                        h <= 255,
                ;
                let cells = w * h;
                if cells > best_cells {
                    best_cells = cells;
                    matrix_index = i;
                }
            }
        }
        i = i + 1;
    }
    if best_cells == 0 {
        return None;
    }
    Some(MapSource {
        matrix_path: String::from_str(p.matrix),
        matrix_index,
        land_path: String::from_str(p.land),
        texset_path: String::from_str(p.texset),
        area_data_path: String::from_str(p.area_data),
        build_path: String::from_str(p.build),
        prop_texset_path: String::from_str(p.prop_texset),
        layout: p.layout,
    })
}

/// Load and parse map matrix `index` from the matrix archive at `matrix_path`.
pub fn load_map_matrix(rom: &Rom, matrix_path: &str, index: usize) -> (r: Option<MapMatrix>)
    ensures
        match path_file(*rom, matrix_path@) {
            Some(d) => match archive_file(d, index as int) {
                Some(f) => match matrix_model(f) {
                    Some(m) => r matches Some(mm) && mm.model() == m,
                    None => r is None,
                },
                None => r is None,
            },
            None => r is None,
        },
{
    let data = match rom.file_by_path(matrix_path) {
        Ok(d) => d,
        Err(_) => {
            return None;
        },
    };
    let narc = match Narc::parse(data) {
        Ok(n) => n,
        Err(_) => {
            return None;
        },
    };
    match narc.file(index) {
        Ok(f) => parse_map_matrix(f),
        Err(_) => None,
    }
}


/// Values keyed by land-data chunk id.
pub struct LandTable<T> {
    map: HashMap<u16, T>,
}

impl<T> View for LandTable<T> {
    type V = Map<u16, T>;

    closed spec fn view(&self) -> Map<u16, T> {
        self.map@
    }
}

impl<T> LandTable<T> {
    /// Whether the table holds finitely many ids (every table does).
    pub closed spec fn wf(&self) -> bool {
        self.map@.dom().finite()
    }

    /// An empty table.
    pub fn new() -> (t: Self)
        ensures
            t.wf(),
            t@ == Map::<u16, T>::empty(),
    {
        LandTable { map: HashMap::new() }
    }

    /// Sets the value of `k`.
    pub fn insert(&mut self, k: u16, v: T)
        requires
            old(self).wf(),
        ensures
            final(self).wf(),
            final(self)@ == old(self)@.insert(k, v),
    {
        broadcast use vstd::std_specs::hash::group_hash_axioms;
        self.map.insert(k, v);
    }

    /// The value of `k`, if it has one.
    pub fn get(&self, k: u16) -> (r: Option<&T>)
        requires
            self.wf(),
        ensures
            r == if self@.dom().contains(k) { Some(&self@[k]) } else { None },
    {
        broadcast use vstd::std_specs::hash::group_hash_axioms;
        self.map.get(&k)
    }
}

/// The ids of `m` below `k`, ascending.
pub open spec fn keys_below<T>(m: Map<u16, T>, k: int) -> Seq<u16>
    decreases k,
{
    if k <= 0 {
        seq![]
    } else if m.dom().contains((k - 1) as u16) {
        keys_below(m, k - 1).push((k - 1) as u16)
    } else {
        keys_below(m, k - 1)
    }
}

impl<T> LandTable<T> {
    /// The ids that have a value, ascending.
    pub fn keys(&self) -> (out: Vec<u16>)
        requires
            self.wf(),
        ensures
            out@ == keys_below(self@, 0x10000),
    {
        let mut out: Vec<u16> = Vec::new();
        let mut k: usize = 0;
        while k < 0x10000
            invariant
                self.wf(),
                k <= 0x10000,
                out@ == keys_below(self@, k as int),
            decreases 0x10000 - k,
        {
            if self.get(k as u16).is_some() {
                out.push(k as u16);
            }
            k = k + 1;
        }
        out
    }
}

/// The distinct header ids among the first `k` cells other than 0xFFFF, in
/// order of first use.
pub open spec fn used_headers(h: Seq<u16>, k: int) -> Seq<u16>
    decreases k,
{
    if k <= 0 {
        seq![]
    } else {
        let d = used_headers(h, k - 1);
        if h[k - 1] == 0xFFFF || d.contains(h[k - 1]) { d } else { d.push(h[k - 1]) }
    }
}

/// The area of each land chunk among the first `c` cells: the area of the
/// last cell using it; `None` when a cell's header lies past the table.
pub open spec fn area_scan(land: Seq<u16>, headers: Seq<u16>, areas: Seq<u8>, c: int) -> Option<Map<u16, usize>>
    decreases c,
{
    if c <= 0 {
        Some(Map::empty())
    } else {
        match area_scan(land, headers, areas, c - 1) {
            None => None,
            Some(m) => {
                let hid = headers[c - 1];
                let lid = land[c - 1];
                if hid == 0xFFFF || lid == 0xFFFF {
                    Some(m)
                } else if hid >= areas.len() {
                    None
                } else {
                    Some(m.insert(lid, areas[hid as int] as usize))
                }
            },
        }
    }
}

/// Whether the matrix layers cover its grid, whose cell count fits 32 bits.
pub open spec fn matrix_consistent(m: MapMatrix) -> bool {
    &&& m.width * m.height <= u32::MAX
    &&& m.land_ids@.len() >= m.width * m.height
    &&& m.headers@.len() == 0 || m.headers@.len() >= m.width * m.height
}

/// Whether the decoded arm9 leaves room for a map-header table search with
/// the given layout.
pub open spec fn arm9_fits(a: Seq<u8>, l: MapHeaderLayout) -> bool {
    &&& blz_compressed(a) ==> a.len() + inc_len(a) <= usize::MAX
    &&& blz_decoded(a).len() + 4 + 0x10000 * l.stride + l.area_off + l.matrix_off + 2 <= usize::MAX
}

/// The area of each land chunk of the matrix, through the header layer and
/// the arm9 map-header table.
pub open spec fn land_areas(arm9: Seq<u8>, l: MapHeaderLayout, m: MapMatrix) -> Option<Map<u16, usize>> {
    let cells = m.width * m.height;
    if m.headers@.len() == 0 {
        None
    } else {
        match header_areas(blz_decoded(arm9), used_headers(m.headers@, cells), l) {
            None => None,
            Some(areas) => area_scan(m.land_ids@, m.headers@, areas, cells),
        }
    }
}

proof fn lemma_used_headers(h: Seq<u16>, k: int)
    requires
        0 <= k <= h.len(),
    ensures
        forall|i: int| 0 <= i < used_headers(h, k).len() ==> #[trigger] used_headers(h, k)[i] != 0xFFFF,
        forall|x: u16| #[trigger] used_headers(h, k).contains(x) <==> (x != 0xFFFF && exists|i: int| 0 <= i < k && h[i] == x),
    decreases k,
{
    if k > 0 {
        lemma_used_headers(h, k - 1);
        let d = used_headers(h, k - 1);
        assert forall|x: u16| #[trigger] used_headers(h, k).contains(x) <==> (x != 0xFFFF && exists|i: int| 0 <= i < k && h[i] == x) by {
            if x != 0xFFFF && exists|i: int| 0 <= i < k && h[i] == x {
                let i = choose|i: int| 0 <= i < k && h[i] == x;
                if i < k - 1 {
                    assert(d.contains(x));
                    if !(h[k - 1] == 0xFFFF || d.contains(h[k - 1])) {
                        assert(d.push(h[k - 1])[d.index_of(x)] == x);
                    }
                } else {
                    if !(h[k - 1] == 0xFFFF || d.contains(h[k - 1])) {
                        assert(d.push(h[k - 1])[d.len() as int] == x);
                    }
                }
            }
            if used_headers(h, k).contains(x) {
                if !(h[k - 1] == 0xFFFF || d.contains(h[k - 1])) {
                    let j = choose|j: int| 0 <= j < d.len() + 1 && #[trigger] d.push(h[k - 1])[j] == x;
                    if j < d.len() {
                        assert(d.contains(x));
                    }
                }
            }
        }
    }
}

/// The distinct header ids the first `cells` cells use, in order of first use.
fn headers_in_use(headers: &Vec<u16>, cells: usize) -> (out: Vec<u16>)
    requires
        cells <= headers@.len(),
    ensures
        out@ == used_headers(headers@, cells as int),
{
    let mut seen: Vec<bool> = Vec::with_capacity(0x10000);
    let mut i: usize = 0;
    while i < 0x10000
        invariant
            i <= 0x10000,
            seen@.len() == i,
            forall|j: int| 0 <= j < i ==> !seen@[j],
        decreases 0x10000 - i,
    {
        seen.push(false);
        i = i + 1;
    }
    let mut out: Vec<u16> = Vec::new();
    let mut c: usize = 0;
    while c < cells
        invariant
            cells <= headers@.len(),
            c <= cells,
            seen@.len() == 0x10000,
            out@ == used_headers(headers@, c as int),
            forall|x: u16| #[trigger] seen@[x as int] == used_headers(headers@, c as int).contains(x),
        decreases cells - c,
    {
        let h = headers[c];
        proof {
            lemma_used_headers(headers@, c as int);
            lemma_used_headers(headers@, c + 1);
        }
        if h != 0xFFFF && !seen[h as usize] {
            seen.set(h as usize, true);
            out.push(h);
        }
        proof {
            assert forall|x: u16| #[trigger] seen@[x as int] == used_headers(headers@, c + 1).contains(x) by {
                if x != h {
                    if used_headers(headers@, c + 1).contains(x) {
                        let i = choose|i: int| 0 <= i < c + 1 && headers@[i] == x;
                        assert(0 <= i < c && headers@[i] == x);
                    }
                }
            }
        }
        c = c + 1;
    }
    out
}

/// Resolve the area each land-data chunk belongs to, via the matrix header
/// layer and the arm9 map-header table.
pub fn resolve_areas(rom: &Rom, src: &MapSource, matrix: &MapMatrix) -> (r: Option<LandTable<usize>>)
    requires
        matrix_consistent(*matrix),
        arm9_fits(arm9_bytes(rom.bytes(), rom.hdr()), src.layout),
    ensures
        match land_areas(arm9_bytes(rom.bytes(), rom.hdr()), src.layout, *matrix) {
            Some(m) => r matches Some(t) && t.wf() && t@ == m,
            None => r is None,
        },
{
    if matrix.headers.len() == 0 {
        return None;
    }
    let cells = (matrix.width * matrix.height) as usize;
    let ids = headers_in_use(&matrix.headers, cells);
    let arm9 = blz_decode(rom.arm9());
    proof {
        lemma_used_headers(matrix.headers@, cells as int);
        if ids@.len() > 0 {
            lemma_max_id(ids@, 0);
        }
        let mx = max_id(ids@);
        assert(0 <= mx <= 0xFFFF);
        assert((mx + 1) * src.layout.stride <= 0x10000 * src.layout.stride) by (nonlinear_arith)
            requires
                0 <= mx <= 0xFFFF,
                src.layout.stride >= 0,
        ;
    }
    let area_by_header = match map_header_areas(arm9.as_slice(), ids.as_slice(), src.layout) {
        Some(a) => a,
        None => {
            return None;
        },
    };
    let mut out: LandTable<usize> = LandTable::new();
    let mut c: usize = 0;
    while c < cells
        invariant
            matrix_consistent(*matrix),
            cells == matrix.width * matrix.height,
            matrix.headers@.len() >= cells,
            c <= cells,
            out.wf(),
            land_areas(arm9_bytes(rom.bytes(), rom.hdr()), src.layout, *matrix)
                == area_scan(matrix.land_ids@, matrix.headers@, area_by_header@, cells as int),
            area_scan(matrix.land_ids@, matrix.headers@, area_by_header@, c as int) == Some(out@),
        decreases cells - c,
    {
        let hid = matrix.headers[c];
        let lid = matrix.land_ids[c];
        if hid != 0xFFFF && lid != 0xFFFF {
            if hid as usize >= area_by_header.len() {
                proof {
                    lemma_area_scan_stays_none(matrix.land_ids@, matrix.headers@, area_by_header@, c + 1, cells as int);
                }
                return None;
            }
            out.insert(lid, area_by_header[hid as usize] as usize);
        }
        c = c + 1;
    }
    Some(out)
}

proof fn lemma_area_scan_stays_none(land: Seq<u16>, headers: Seq<u16>, areas: Seq<u8>, c: int, k: int)
    requires
        0 <= c <= k,
        area_scan(land, headers, areas, c) is None,
    ensures
        area_scan(land, headers, areas, k) is None,
    decreases k - c,
{
    if c < k {
        lemma_area_scan_stays_none(land, headers, areas, c + 1, k);
    }
}


/// The texture set of each land chunk: the 16-bit word at offset 2 of its
/// area's entry in the area-data archive `ad` (chunks whose entry is missing
/// or shorter than 4 bytes have none).
pub open spec fn land_texsets(areas: Map<u16, usize>, ad: Seq<u8>) -> Map<u16, u16> {
    Map::new(
        |k: u16| areas.dom().contains(k) && (archive_file(ad, areas[k] as int) matches Some(e) && e.len() >= 4),
        |k: u16| le16(archive_file(ad, areas[k] as int)->Some_0, 2) as u16,
    )
}

/// The texture set each land chunk of the matrix is drawn with.
pub open spec fn texsets_of(rom: Rom, src: MapSource, m: MapMatrix) -> Option<Map<u16, u16>> {
    match land_areas(arm9_bytes(rom.bytes(), rom.hdr()), src.layout, m) {
        None => None,
        Some(areas) => match path_file(rom, src.area_data_path@) {
            None => None,
            Some(ad) => if archive_model(ad) is Err { None } else { Some(land_texsets(areas, ad)) },
        },
    }
}

/// The map texture-set index each land-data chunk uses.
pub fn resolve_texsets(rom: &Rom, src: &MapSource, matrix: &MapMatrix) -> (r: Option<LandTable<u16>>)
    requires
        matrix_consistent(*matrix),
        arm9_fits(arm9_bytes(rom.bytes(), rom.hdr()), src.layout),
    ensures
        match texsets_of(*rom, *src, *matrix) {
            Some(m) => r matches Some(t) && t.wf() && t@ == m,
            None => r is None,
        },
{
    let areas = match resolve_areas(rom, src, matrix) {
        Some(a) => a,
        None => {
            return None;
        },
    };
    let data = match rom.file_by_path(src.area_data_path.as_str()) {
        Ok(d) => d,
        Err(_) => {
            return None;
        },
    };
    let narc = match Narc::parse(data) {
        Ok(n) => n,
        Err(_) => {
            return None;
        },
    };
    let ghost ad = data@;
    let ghost goal = land_texsets(areas@, ad);
    let mut out: LandTable<u16> = LandTable::new();
    let mut k: usize = 0;
    while k < 0x10000
        invariant
            k <= 0x10000,
            areas.wf(),
            out.wf(),
            narc.parsed_from(ad),
            goal == land_texsets(areas@, ad),
            out@ =~= Map::new(|x: u16| (x as int) < k && goal.dom().contains(x), |x: u16| goal[x]),
        decreases 0x10000 - k,
    {
        if let Some(a) = areas.get(k as u16) {
            let area = *a;
            proof {
                let m = archive_model(ad)->Ok_0;
                assert(entry_bytes(narc.image(), narc.entries(), area as int) == entry_bytes(ad.subrange(m.0, m.1), m.2, area as int));
            }
            if let Ok(e) = narc.file(area) {
                if e.len() >= 4 {
                    out.insert(k as u16, le16_exec(e, 2));
                }
            }
        }
        proof {
            assert(out@ =~= Map::new(|x: u16| (x as int) < k + 1 && goal.dom().contains(x), |x: u16| goal[x]));
        }
        k = k + 1;
    }
    assert(out@ =~= goal);
    Some(out)
}

/// The chunks of the land-data archive that carry a terrain model, with
/// their ids, among the first `k`.
pub open spec fn terrains_upto(land: Narc, k: int) -> Seq<(u32, Seq<u8>)>
    decreases k,
{
    if k <= 0 {
        seq![]
    } else {
        let t = terrains_upto(land, k - 1);
        match entry_bytes(land.image(), land.entries(), k - 1) {
            Ok(chunk) => match terrain_bytes(chunk) {
                Some(model) => t.push(((k - 1) as u32, model)),
                None => t,
            },
            Err(_) => t,
        }
    }
}

/// The terrain model of every land-data chunk that has one, by chunk id.
pub fn terrain_chunks<'a>(land: &Narc<'a>) -> (out: Vec<(u32, &'a [u8])>)
    ensures
        out@.map_values(|t: (u32, &'a [u8])| (t.0, t.1@)) == terrains_upto(*land, land.entries().len() as int),
{
    let mut out: Vec<(u32, &'a [u8])> = Vec::new();
    let n = land.file_count();
    let mut i: usize = 0;
    while i < n
        invariant
            n == land.entries().len(),
            i <= n,
            out@.map_values(|t: (u32, &'a [u8])| (t.0, t.1@)) == terrains_upto(*land, i as int),
        decreases n - i,
    {
        if let Ok(chunk) = land.file(i) {
            if let Some(model) = terrain_model(chunk) {
                out.push((i as u32, model));
            }
        }
        proof {
            assert(out@.map_values(|t: (u32, &'a [u8])| (t.0, t.1@)) =~= terrains_upto(*land, i + 1));
        }
        i = i + 1;
    }
    out
}

/// Texture set `ts` of a parsed texture archive, when it is a "BTX0" file.
pub fn texset_file<'a>(tex: &Narc<'a>, ts: u16) -> (r: Option<&'a [u8]>)
    ensures
        match btx_file(tex.image(), tex.entries(), ts as int) {
            Some(f) => r matches Some(s) && s@ == f,
            None => r is None,
        },
{
    match tex.file(ts as usize) {
        Ok(f) => {
            if f.len() >= 4 && f[0] == 66 && f[1] == 84 && f[2] == 88 && f[3] == 48 {
                assert(f@.subrange(0, 4) =~= seq![66u8, 84u8, 88u8, 48u8]);
                Some(f)
            } else {
                proof {
                    if f@.len() >= 4 && f@.subrange(0, 4) == seq![66u8, 84u8, 88u8, 48u8] {
                        assert(f@.subrange(0, 4)[0] == 66);
                        assert(f@.subrange(0, 4)[1] == 84);
                        assert(f@.subrange(0, 4)[2] == 88);
                        assert(f@.subrange(0, 4)[3] == 48);
                    }
                }
                None
            }
        },
        Err(_) => None,
    }
}

/// The bytes of "image/png".
pub open spec fn png_mime() -> Seq<u8> {
    seq![105u8, 109u8, 97u8, 103u8, 101u8, 47u8, 112u8, 110u8, 103u8]
}

/// Whether `glb` embeds a PNG image (holds "image/png" somewhere).
pub open spec fn textured(glb: Seq<u8>) -> bool {
    has_sub(glb, png_mime())
}

/// Whether a decoded GLB embeds any texture image.
pub fn is_textured(glb: &[u8]) -> (b: bool)
    ensures
        b == textured(glb@),
{
    let mime: [u8; 9] = [105, 109, 97, 103, 101, 47, 112, 110, 103];
    assert(mime@ =~= png_mime());
    contains_bytes(glb, mime.as_slice())
}

/// The key of a textured building model: the prop archive in the high half,
/// the model id in the low half.
pub open spec fn building_key_of(prop_arc: u16, model_id: u16) -> u32 {
    (prop_arc as int * 0x10000 + model_id as int) as u32
}

/// A distinct textured building GLB is keyed by its (prop archive, model id)
/// pair: the same build model textured by two areas' prop sets differs.
pub fn building_key(prop_arc: u16, model_id: u16) -> (k: u32)
    ensures
        k == building_key_of(prop_arc, model_id),
        k as int == prop_arc as int * 0x10000 + model_id as int,
{
    let k = ((prop_arc as u32) << 16) | model_id as u32;
    assert(((prop_arc as u32) << 16) | model_id as u32 == (prop_arc as u32) * 0x10000 + (model_id as u32)) by (bit_vector);
    k
}


/// Whether chunk `lid` is in the terrain list.
pub open spec fn in_terrains(t: Seq<(u32, Seq<u8>)>, lid: u16) -> bool {
    exists|j: int| 0 <= j < t.len() && #[trigger] t[j].0 == lid as u32
}

/// Among the first `j` of `keys`, the chunks with terrain that are drawn with
/// texture set `ts`.
pub open spec fn group_lids(keys: Seq<u16>, tex: Map<u16, u16>, t: Seq<(u32, Seq<u8>)>, ts: u16, j: int) -> Seq<u32>
    decreases j,
{
    if j <= 0 {
        seq![]
    } else {
        group_lids(keys, tex, t, ts, j - 1) + if tex[keys[j - 1]] == ts && in_terrains(t, keys[j - 1]) {
            seq![keys[j - 1] as u32]
        } else {
            Seq::<u32>::empty()
        }
    }
}

/// The non-empty groups of the texture sets below `v`, ascending.
pub open spec fn groups_below(keys: Seq<u16>, tex: Map<u16, u16>, t: Seq<(u32, Seq<u8>)>, v: int) -> Seq<(u16, Seq<u32>)>
    decreases v,
{
    if v <= 0 {
        seq![]
    } else {
        let g = group_lids(keys, tex, t, (v - 1) as u16, keys.len() as int);
        groups_below(keys, tex, t, v - 1) + if g.len() > 0 {
            seq![((v - 1) as u16, g)]
        } else {
            Seq::<(u16, Seq<u32>)>::empty()
        }
    }
}

/// The chunks with terrain grouped by the texture set they are drawn with
/// (texture sets ascending, chunks ascending), so each set is decoded once.
pub open spec fn texset_groups_of(tex: Map<u16, u16>, t: Seq<(u32, Seq<u8>)>) -> Seq<(u16, Seq<u32>)> {
    groups_below(keys_below(tex, 0x10000), tex, t, 0x10000)
}

proof fn lemma_keys_below<T>(m: Map<u16, T>, k: int)
    requires
        0 <= k <= 0x10000,
    ensures
        forall|j: int| 0 <= j < keys_below(m, k).len() ==> m.dom().contains(#[trigger] keys_below(m, k)[j]) && keys_below(m, k)[j] < k,
    decreases k,
{
    if k > 0 {
        lemma_keys_below(m, k - 1);
        let prev = keys_below(m, k - 1);
        if m.dom().contains((k - 1) as u16) {
            assert forall|j: int| 0 <= j < keys_below(m, k).len() implies m.dom().contains(#[trigger] keys_below(m, k)[j])
                && keys_below(m, k)[j] < k by {
                if j < prev.len() {
                    assert(keys_below(m, k)[j] == prev[j]);
                }
            }
        }
    }
}

proof fn lemma_group_lids(keys: Seq<u16>, tex: Map<u16, u16>, t: Seq<(u32, Seq<u8>)>, ts: u16, j: int)
    requires
        0 <= j <= keys.len(),
    ensures
        group_lids(keys, tex, t, ts, j).len() > 0 <==> exists|i: int| 0 <= i < j && tex[#[trigger] keys[i]] == ts && in_terrains(t, keys[i]),
    decreases j,
{
    if j > 0 {
        lemma_group_lids(keys, tex, t, ts, j - 1);
        if tex[keys[j - 1]] == ts && in_terrains(t, keys[j - 1]) {
            assert(tex[keys[j - 1]] == ts && in_terrains(t, keys[j - 1]));
        }
    }
}

/// A terrain list as plain values.
pub open spec fn terrain_view<'a>(v: Seq<(u32, &'a [u8])>) -> Seq<(u32, Seq<u8>)> {
    v.map_values(|x: (u32, &'a [u8])| (x.0, x.1@))
}

/// Groups the chunks that have terrain by texture set.
pub fn texset_groups<'a>(tex: &LandTable<u16>, terrains: &Vec<(u32, &'a [u8])>) -> (out: Vec<(u16, Vec<u32>)>)
    requires
        tex.wf(),
    ensures
        out@.map_values(|g: (u16, Vec<u32>)| (g.0, g.1@)) == texset_groups_of(tex@, terrain_view(terrains@)),
{
    let ghost t = terrain_view(terrains@);
    let mut terrain_at: Vec<bool> = Vec::with_capacity(0x10000);
    let mut i: usize = 0;
    while i < 0x10000
        invariant
            i <= 0x10000,
            terrain_at@.len() == i,
            forall|j: int| 0 <= j < i ==> !terrain_at@[j],
        decreases 0x10000 - i,
    {
        terrain_at.push(false);
        i = i + 1;
    }
    let mut j: usize = 0;
    while j < terrains.len()
        invariant
            t == terrain_view(terrains@),
            j <= terrains.len(),
            terrain_at@.len() == 0x10000,
            forall|x: u16| #[trigger] terrain_at@[x as int] == exists|q: int| 0 <= q < j && #[trigger] t[q].0 == x as u32,
        decreases terrains.len() - j,
    {
        let id = terrains[j].0;
        if id < 0x10000 {
            terrain_at.set(id as usize, true);
        }
        proof {
            assert forall|x: u16| #[trigger] terrain_at@[x as int] == exists|q: int| 0 <= q < j + 1 && #[trigger] t[q].0 == x as u32 by {
                if x as u32 == id {
                    assert(t[j as int].0 == x as u32);
                }
                if exists|q: int| 0 <= q < j + 1 && #[trigger] t[q].0 == x as u32 {
                    let q = choose|q: int| 0 <= q < j + 1 && #[trigger] t[q].0 == x as u32;
                    if q < j {
                    } else {
                        assert(id == x as u32);
                    }
                }
            }
        }
        j = j + 1;
    }
    let keys = tex.keys();
    proof {
        lemma_keys_below(tex@, 0x10000);
    }
    let ghost ks = keys@;
    let mut present: Vec<bool> = Vec::with_capacity(0x10000);
    let mut i: usize = 0;
    while i < 0x10000
        invariant
            i <= 0x10000,
            present@.len() == i,
            forall|j: int| 0 <= j < i ==> !present@[j],
        decreases 0x10000 - i,
    {
        present.push(false);
        i = i + 1;
    }
    let mut j: usize = 0;
    while j < keys.len()
        invariant
            tex.wf(),
            t == terrain_view(terrains@),
            ks == keys@,
            ks == keys_below(tex@, 0x10000),
            forall|q: int| 0 <= q < ks.len() ==> tex@.dom().contains(#[trigger] ks[q]),
            j <= keys.len(),
            terrain_at@.len() == 0x10000,
            present@.len() == 0x10000,
            forall|x: u16| #[trigger] terrain_at@[x as int] == in_terrains(t, x),
            forall|v: u16| #[trigger] present@[v as int] == exists|q: int| 0 <= q < j && tex@[#[trigger] ks[q]] == v && in_terrains(t, ks[q]),
        decreases keys.len() - j,
    {
        let k = keys[j];
        let v = *tex.get(k).unwrap();
        if terrain_at[k as usize] {
            present.set(v as usize, true);
        }
        proof {
            assert forall|w: u16| #[trigger] present@[w as int] == exists|q: int| 0 <= q < j + 1 && tex@[#[trigger] ks[q]] == w && in_terrains(t, ks[q]) by {
                if exists|q: int| 0 <= q < j + 1 && tex@[#[trigger] ks[q]] == w && in_terrains(t, ks[q]) {
                    let q = choose|q: int| 0 <= q < j + 1 && tex@[#[trigger] ks[q]] == w && in_terrains(t, ks[q]);
                    if q == j {
                        assert(terrain_at@[k as int]);
                    }
                }
                if w == v && terrain_at@[k as int] {
                    assert(tex@[ks[j as int]] == w && in_terrains(t, ks[j as int]));
                }
            }
        }
        j = j + 1;
    }
    let mut out: Vec<(u16, Vec<u32>)> = Vec::new();
    let mut ts: usize = 0;
    while ts < 0x10000
        invariant
            tex.wf(),
            t == terrain_view(terrains@),
            ks == keys@,
            forall|q: int| 0 <= q < ks.len() ==> tex@.dom().contains(#[trigger] ks[q]),
            ts <= 0x10000,
            terrain_at@.len() == 0x10000,
            present@.len() == 0x10000,
            forall|x: u16| #[trigger] terrain_at@[x as int] == in_terrains(t, x),
            forall|v: u16| #[trigger] present@[v as int] == exists|q: int| 0 <= q < ks.len() && tex@[#[trigger] ks[q]] == v && in_terrains(t, ks[q]),
            out@.map_values(|g: (u16, Vec<u32>)| (g.0, g.1@)) == groups_below(ks, tex@, t, ts as int),
        decreases 0x10000 - ts,
    {
        proof {
            lemma_group_lids(ks, tex@, t, ts as u16, ks.len() as int);
        }
        if present[ts] {
            let mut lids: Vec<u32> = Vec::new();
            let mut j: usize = 0;
            while j < keys.len()
                invariant
                    tex.wf(),
                    t == terrain_view(terrains@),
                    ks == keys@,
                    forall|q: int| 0 <= q < ks.len() ==> tex@.dom().contains(#[trigger] ks[q]),
                    ts < 0x10000,
                    j <= keys.len(),
                    terrain_at@.len() == 0x10000,
                    forall|x: u16| #[trigger] terrain_at@[x as int] == in_terrains(t, x),
                    lids@ == group_lids(ks, tex@, t, ts as u16, j as int),
                decreases keys.len() - j,
            {
                let k = keys[j];
                let v = *tex.get(k).unwrap();
                if v as usize == ts && terrain_at[k as usize] {
                    lids.push(k as u32);
                }
                proof {
                    assert(lids@ =~= group_lids(ks, tex@, t, ts as u16, j + 1));
                }
                j = j + 1;
            }
            out.push((ts as u16, lids));
        }
        proof {
            assert(out@.map_values(|g: (u16, Vec<u32>)| (g.0, g.1@)) =~= groups_below(ks, tex@, t, ts + 1));
        }
        ts = ts + 1;
    }
    out
}


/// A building placed on a land chunk, with the key of the textured model it is
/// drawn with. Position, rotation and scale are fx32 fixed-point values.
#[derive(Clone, Copy, Debug, PartialEq, Eq)]
pub struct BuildingPlacement {
    pub glb_key: u32,
    pub position: (i32, i32, i32),
    pub rotation: (i32, i32, i32),
    pub scale: (i32, i32, i32),
}

/// The placement of building `b` of a chunk whose area uses prop archive `arc`.
pub open spec fn placement_of(arc: u16, b: Building) -> BuildingPlacement {
    BuildingPlacement {
        glb_key: building_key_of(arc, b.model_id),
        position: b.position,
        rotation: b.rotation,
        scale: b.scale,
    }
}

/// The prop archive of area `area`: the first word of its area-data entry
/// (when the entry holds two bytes).
pub open spec fn prop_archive(ad: Seq<u8>, area: int) -> Option<u16> {
    match archive_file(ad, area) {
        Some(e) => if e.len() >= 2 { Some(le16(e, 0) as u16) } else { None },
        None => None,
    }
}

/// Whether cell `c` is the first to use its land chunk.
pub open spec fn first_use(land: Seq<u16>, c: int) -> bool {
    forall|i: int| 0 <= i < c ==> land[i] != land[c]
}

/// What cell `c` contributes: (chunk, prop archive, buildings) when it is the
/// first cell of a chunk whose area, prop archive and chunk bytes are known
/// and which has buildings.
pub open spec fn cell_buildings(land: Seq<u16>, areas: Map<u16, usize>, ad: Seq<u8>, ld: Seq<u8>, c: int) -> Option<(u16, u16, Seq<Building>)> {
    let lid = land[c];
    if lid == 0xFFFF || !first_use(land, c) || !areas.dom().contains(lid) {
        None
    } else {
        match prop_archive(ad, areas[lid] as int) {
            None => None,
            Some(arc) => match archive_file(ld, lid as int) {
                None => None,
                Some(chunk) => if chunk_buildings(chunk).len() == 0 {
                    None
                } else {
                    Some((lid, arc, chunk_buildings(chunk)))
                },
            },
        }
    }
}

/// The contributions of the first `c` cells, in cell order.
pub open spec fn built_upto(land: Seq<u16>, areas: Map<u16, usize>, ad: Seq<u8>, ld: Seq<u8>, c: int) -> Seq<(u16, u16, Seq<Building>)>
    decreases c,
{
    if c <= 0 {
        seq![]
    } else {
        built_upto(land, areas, ad, ld, c - 1) + match cell_buildings(land, areas, ad, ld, c - 1) {
            Some(x) => seq![x],
            None => Seq::<(u16, u16, Seq<Building>)>::empty(),
        }
    }
}

/// The placements of each chunk with buildings.
pub open spec fn placements_of(built: Seq<(u16, u16, Seq<Building>)>) -> Seq<(u32, Seq<BuildingPlacement>)> {
    built.map_values(|x: (u16, u16, Seq<Building>)| (x.0 as u32, x.2.map_values(|b: Building| placement_of(x.1, b))))
}

/// Each chunk's prop archive and buildings.
pub open spec fn arcs_of(built: Seq<(u16, u16, Seq<Building>)>) -> Seq<(u16, Seq<Building>)> {
    built.map_values(|x: (u16, u16, Seq<Building>)| (x.1, x.2))
}

/// Whether a chunk of prop archive `arc` places model `mid`.
pub open spec fn model_used(ch: Seq<(u16, Seq<Building>)>, arc: u16, mid: u16) -> bool {
    exists|j: int, k: int| 0 <= j < ch.len() && 0 <= k < ch[j].1.len() && ch[j].0 == arc && #[trigger] ch[j].1[k].model_id == mid
}

/// Whether some chunk uses prop archive `arc`.
pub open spec fn arc_used(ch: Seq<(u16, Seq<Building>)>, arc: u16) -> bool {
    exists|j: int| 0 <= j < ch.len() && #[trigger] ch[j].0 == arc
}

/// The models below `m` placed with prop archive `arc`, ascending.
pub open spec fn models_below(ch: Seq<(u16, Seq<Building>)>, arc: u16, m: int) -> Seq<u16>
    decreases m,
{
    if m <= 0 {
        seq![]
    } else if model_used(ch, arc, (m - 1) as u16) {
        models_below(ch, arc, m - 1).push((m - 1) as u16)
    } else {
        models_below(ch, arc, m - 1)
    }
}

/// The prop archives below `v` in use, ascending, each with the models it
/// textures (ascending).
pub open spec fn arcs_below(ch: Seq<(u16, Seq<Building>)>, v: int) -> Seq<(u16, Seq<u16>)>
    decreases v,
{
    if v <= 0 {
        seq![]
    } else if arc_used(ch, (v - 1) as u16) {
        arcs_below(ch, v - 1).push(((v - 1) as u16, models_below(ch, (v - 1) as u16, 4096)))
    } else {
        arcs_below(ch, v - 1)
    }
}

/// The archives building placement reads: land data, build models, prop
/// textures and area data, all of which must parse.
pub open spec fn building_archives(rom: Rom, src: MapSource) -> Option<(Seq<u8>, Seq<u8>)> {
    match (path_file(rom, src.land_path@), path_file(rom, src.build_path@), path_file(rom, src.prop_texset_path@), path_file(rom, src.area_data_path@)) {
        (Some(ld), Some(bd), Some(pd), Some(ad)) => if archive_model(ld) is Ok && archive_model(bd) is Ok && archive_model(pd) is Ok && archive_model(ad) is Ok {
            Some((ld, ad))
        } else {
            None
        },
        _ => None,
    }
}

/// What building placement yields for the matrix: each chunk's buildings
/// (none when an archive or the area resolution is missing).
pub open spec fn buildings_of(rom: Rom, src: MapSource, m: MapMatrix) -> Seq<(u16, u16, Seq<Building>)> {
    match (building_archives(rom, src), land_areas(arm9_bytes(rom.bytes(), rom.hdr()), src.layout, m)) {
        (Some((ld, ad)), Some(areas)) => built_upto(m.land_ids@, areas, ad, ld, m.width * m.height),
        _ => seq![],
    }
}

fn archive_at<'a>(rom: &'a Rom, path: &str) -> (r: Option<Narc<'a>>)
    ensures
        match path_file(*rom, path@) {
            Some(d) => if archive_model(d) is Ok { r matches Some(n) && n.parsed_from(d) } else { r is None },
            None => r is None,
        },
{
    match rom.file_by_path(path) {
        Ok(d) => match Narc::parse(d) {
            Ok(n) => Some(n),
            Err(_) => None,
        },
        Err(_) => None,
    }
}

proof fn lemma_archive_entry(n: Narc, d: Seq<u8>, i: int)
    requires
        n.parsed_from(d),
    ensures
        (match entry_bytes(n.image(), n.entries(), i) {
            Ok(b) => Some(b),
            Err(_) => None,
        }) == archive_file(d, i),
{
}

/// The buildings placed on every land chunk, with their model keys, and the
/// models each prop archive textures: the chunk's placements come from its
/// buildings section, the model from the build archive, textured with the
/// chunk area's prop texture set.
pub fn place_buildings(rom: &Rom, src: &MapSource, matrix: &MapMatrix) -> (r: (Vec<(u32, Vec<BuildingPlacement>)>, Vec<(u16, Vec<u16>)>))
    requires
        matrix_consistent(*matrix),
        arm9_fits(arm9_bytes(rom.bytes(), rom.hdr()), src.layout),
    ensures
        r.0@.map_values(|p: (u32, Vec<BuildingPlacement>)| (p.0, p.1@)) == placements_of(buildings_of(*rom, *src, *matrix)),
        r.1@.map_values(|g: (u16, Vec<u16>)| (g.0, g.1@)) == arcs_below(arcs_of(buildings_of(*rom, *src, *matrix)), 0x10000),
{
    let land = archive_at(rom, src.land_path.as_str());
    let build = archive_at(rom, src.build_path.as_str());
    let prop_tex = archive_at(rom, src.prop_texset_path.as_str());
    let area_narc = archive_at(rom, src.area_data_path.as_str());
    let areas = resolve_areas(rom, src, matrix);
    let (land, area_narc, areas) = match (land, build, prop_tex, area_narc, areas) {
        (Some(l), Some(_), Some(_), Some(a), Some(t)) => (l, a, t),
        _ => {
            proof {
                assert(buildings_of(*rom, *src, *matrix) =~= Seq::<(u16, u16, Seq<Building>)>::empty());
                assert(arcs_of(Seq::<(u16, u16, Seq<Building>)>::empty()) =~= Seq::<(u16, Seq<Building>)>::empty());
                lemma_arcs_below_empty(0x10000);
            }
            return (Vec::new(), Vec::new());
        },
    };
    let ghost ld = path_file(*rom, src.land_path@)->Some_0;
    let ghost ad = path_file(*rom, src.area_data_path@)->Some_0;
    let ghost lands = matrix.land_ids@;
    let cells = (matrix.width * matrix.height) as usize;
    let ghost built = built_upto(lands, areas@, ad, ld, cells as int);
    assert(buildings_of(*rom, *src, *matrix) == built);
    broadcast use vstd::std_specs::hash::group_hash_axioms;
    let mut seen: HashSet<u16> = HashSet::new();
    let mut placements: Vec<(u32, Vec<BuildingPlacement>)> = Vec::new();
    let mut chunks: Vec<(u16, Vec<Building>)> = Vec::new();
    let mut c: usize = 0;
    while c < cells
        invariant
            matrix_consistent(*matrix),
            lands == matrix.land_ids@,
            cells == matrix.width * matrix.height,
            c <= cells,
            areas.wf(),
            land.parsed_from(ld),
            area_narc.parsed_from(ad),
            forall|x: u16| x != 0xFFFF ==> (#[trigger] seen@.contains(x) <==> exists|i: int| 0 <= i < c && lands[i] == x),
            placements@.map_values(|p: (u32, Vec<BuildingPlacement>)| (p.0, p.1@)) == placements_of(built_upto(lands, areas@, ad, ld, c as int)),
            chunks@.map_values(|x: (u16, Vec<Building>)| (x.0, x.1@)) == arcs_of(built_upto(lands, areas@, ad, ld, c as int)),
            forall|j: int, k: int| 0 <= j < chunks@.len() && 0 <= k < chunks@[j].1@.len() ==> (#[trigger] chunks@[j].1@[k]).model_id < 4096,
        decreases cells - c,
    {
        let ghost b0 = built_upto(lands, areas@, ad, ld, c as int);
        let ghost p0 = placements@.map_values(|p: (u32, Vec<BuildingPlacement>)| (p.0, p.1@));
        let ghost ch0 = chunks@.map_values(|x: (u16, Vec<Building>)| (x.0, x.1@));
        let lid = matrix.land_ids[c];
        let mut fresh = false;
        if lid != 0xFFFF {
            fresh = seen.insert(lid);
        }
        proof {
            if lid != 0xFFFF {
                assert(fresh == first_use(lands, c as int)) by {
                    if !fresh {
                        let i = choose|i: int| 0 <= i < c && lands[i] == lid;
                        assert(lands[i] == lands[c as int]);
                    }
                }
            }
            assert forall|x: u16| x != 0xFFFF implies (#[trigger] seen@.contains(x) <==> exists|i: int| 0 <= i < c + 1 && lands[i] == x) by {
                if x == lid {
                    assert(lands[c as int] == x);
                } else if exists|i: int| 0 <= i < c + 1 && lands[i] == x {
                    let i = choose|i: int| 0 <= i < c + 1 && lands[i] == x;
                    assert(i < c);
                }
            }
        }
        let step = chunk_step(&land, &area_narc, &areas, lid, fresh, Ghost(ld), Ghost(ad));
        proof {
            assert(fresh == (lid != 0xFFFF && first_use(lands, c as int)));
            match cell_buildings(lands, areas@, ad, ld, c as int) {
                Some(x) => {
                    assert(step matches Some((arc, bs)) && arc == x.1 && bs@ == x.2 && lid == x.0);
                },
                None => {
                    assert(step is None);
                },
            }
        }
        match step {
            Some((arc, bs)) => {
                let list = place_all(&bs, arc);
                let ghost x = (lid, arc, bs@);
                let ghost lv = list@;
                proof {
                    lemma_chunk_building_ids_of(bs@, x);
                }
                placements.push((lid as u32, list));
                chunks.push((arc, bs));
                proof {
                    let b1 = built_upto(lands, areas@, ad, ld, c + 1);
                    assert(b1 == b0.push(x));
                    lemma_push_built(b0, x, p0, lv);
                    assert(placements@.map_values(|p: (u32, Vec<BuildingPlacement>)| (p.0, p.1@)) =~= p0.push((lid as u32, lv)));
                    assert(chunks@.map_values(|x: (u16, Vec<Building>)| (x.0, x.1@)) =~= ch0.push((arc, x.2)));
                }
            },
            None => {
                proof {
                    let b1 = built_upto(lands, areas@, ad, ld, c + 1);
                    assert(b1 =~= b0);
                }
            },
        }
        c = c + 1;
    }
    let groups = model_groups(&chunks);
    (placements, groups)
}

proof fn lemma_arcs_below_empty(v: int)
    ensures
        arcs_below(Seq::<(u16, Seq<Building>)>::empty(), v) == Seq::<(u16, Seq<u16>)>::empty(),
    decreases v,
{
    if v > 0 {
        lemma_arcs_below_empty(v - 1);
    }
}


/// A chunk list as plain values.
pub open spec fn chunk_view(chunks: Seq<(u16, Vec<Building>)>) -> Seq<(u16, Seq<Building>)> {
    chunks.map_values(|x: (u16, Vec<Building>)| (x.0, x.1@))
}

/// The models each prop archive textures, archives and models ascending.
pub fn model_groups(chunks: &Vec<(u16, Vec<Building>)>) -> (out: Vec<(u16, Vec<u16>)>)
    requires
        forall|j: int, k: int| 0 <= j < chunks@.len() && 0 <= k < chunks@[j].1@.len() ==> (#[trigger] chunks@[j].1@[k]).model_id < 4096,
    ensures
        out@.map_values(|g: (u16, Vec<u16>)| (g.0, g.1@)) == arcs_below(chunk_view(chunks@), 0x10000),
{
    let ghost ch = chunk_view(chunks@);
    let mut used: Vec<bool> = Vec::with_capacity(0x10000);
    let mut i: usize = 0;
    while i < 0x10000
        invariant
            i <= 0x10000,
            used@.len() == i,
            forall|j: int| 0 <= j < i ==> !used@[j],
        decreases 0x10000 - i,
    {
        used.push(false);
        i = i + 1;
    }
    let mut j: usize = 0;
    while j < chunks.len()
        invariant
            ch == chunk_view(chunks@),
            j <= chunks.len(),
            used@.len() == 0x10000,
            forall|a: u16| #[trigger] used@[a as int] == exists|q: int| 0 <= q < j && #[trigger] ch[q].0 == a,
        decreases chunks.len() - j,
    {
        let a = chunks[j].0;
        used.set(a as usize, true);
        proof {
            assert forall|x: u16| #[trigger] used@[x as int] == exists|q: int| 0 <= q < j + 1 && #[trigger] ch[q].0 == x by {
                if x == a {
                    assert(ch[j as int].0 == x);
                } else if exists|q: int| 0 <= q < j + 1 && #[trigger] ch[q].0 == x {
                    let q = choose|q: int| 0 <= q < j + 1 && #[trigger] ch[q].0 == x;
                    assert(q < j);
                }
            }
        }
        j = j + 1;
    }
    let mut out: Vec<(u16, Vec<u16>)> = Vec::new();
    let mut arc: usize = 0;
    while arc < 0x10000
        invariant
            ch == chunk_view(chunks@),
            forall|j: int, k: int| 0 <= j < chunks@.len() && 0 <= k < chunks@[j].1@.len() ==> (#[trigger] chunks@[j].1@[k]).model_id < 4096,
            arc <= 0x10000,
            used@.len() == 0x10000,
            forall|a: u16| #[trigger] used@[a as int] == arc_used(ch, a),
            out@.map_values(|g: (u16, Vec<u16>)| (g.0, g.1@)) == arcs_below(ch, arc as int),
        decreases 0x10000 - arc,
    {
        if used[arc] {
            let ids = arc_models(chunks, arc as u16);
            out.push((arc as u16, ids));
        }
        proof {
            assert(out@.map_values(|g: (u16, Vec<u16>)| (g.0, g.1@)) =~= arcs_below(ch, arc + 1));
        }
        arc = arc + 1;
    }
    out
}

/// The models placed with prop archive `arc`, ascending.
fn arc_models(chunks: &Vec<(u16, Vec<Building>)>, arc: u16) -> (ids: Vec<u16>)
    requires
        forall|j: int, k: int| 0 <= j < chunks@.len() && 0 <= k < chunks@[j].1@.len() ==> (#[trigger] chunks@[j].1@[k]).model_id < 4096,
    ensures
        ids@ == models_below(chunk_view(chunks@), arc, 4096),
{
    let ghost ch = chunk_view(chunks@);
    let mut marks: Vec<bool> = Vec::with_capacity(4096);
    let mut i: usize = 0;
    while i < 4096
        invariant
            i <= 4096,
            marks@.len() == i,
            forall|j: int| 0 <= j < i ==> !marks@[j],
        decreases 4096 - i,
    {
        marks.push(false);
        i = i + 1;
    }
    let mut j: usize = 0;
    while j < chunks.len()
        invariant
            ch == chunk_view(chunks@),
            forall|j: int, k: int| 0 <= j < chunks@.len() && 0 <= k < chunks@[j].1@.len() ==> (#[trigger] chunks@[j].1@[k]).model_id < 4096,
            j <= chunks.len(),
            marks@.len() == 4096,
            forall|m: u16| m < 4096 ==> (#[trigger] marks@[m as int] == exists|q: int, k: int| 0 <= q < j && 0 <= k < ch[q].1.len() && ch[q].0 == arc && #[trigger] ch[q].1[k].model_id == m),
        decreases chunks.len() - j,
    {
        if chunks[j].0 == arc {
            let bs = &chunks[j].1;
            let mut k: usize = 0;
            while k < bs.len()
                invariant
                    ch == chunk_view(chunks@),
                    forall|j: int, k: int| 0 <= j < chunks@.len() && 0 <= k < chunks@[j].1@.len() ==> (#[trigger] chunks@[j].1@[k]).model_id < 4096,
                    j < chunks.len(),
                    bs == &chunks@[j as int].1,
                    chunks@[j as int].0 == arc,
                    k <= bs.len(),
                    marks@.len() == 4096,
                    forall|m: u16| m < 4096 ==> (#[trigger] marks@[m as int] == ((exists|q: int, t: int| 0 <= q < j && 0 <= t < ch[q].1.len() && ch[q].0 == arc && #[trigger] ch[q].1[t].model_id == m)
                        || exists|t: int| 0 <= t < k && #[trigger] ch[j as int].1[t].model_id == m)),
                decreases bs.len() - k,
            {
                let mid = bs[k].model_id;
                assert(mid < 4096);
                marks.set(mid as usize, true);
                proof {
                    assert(ch[j as int].1[k as int] == bs@[k as int]);
                    assert forall|m: u16| m < 4096 implies (#[trigger] marks@[m as int] == ((exists|q: int, t: int| 0 <= q < j && 0 <= t < ch[q].1.len() && ch[q].0 == arc && #[trigger] ch[q].1[t].model_id == m)
                        || exists|t: int| 0 <= t < k + 1 && #[trigger] ch[j as int].1[t].model_id == m)) by {
                        if m == mid {
                            assert(ch[j as int].1[k as int].model_id == m);
                        } else if exists|t: int| 0 <= t < k + 1 && #[trigger] ch[j as int].1[t].model_id == m {
                            let t = choose|t: int| 0 <= t < k + 1 && #[trigger] ch[j as int].1[t].model_id == m;
                            assert(t < k);
                        }
                    }
                }
                k = k + 1;
            }
            proof {
                assert forall|m: u16| m < 4096 implies (#[trigger] marks@[m as int] == exists|q: int, t: int| 0 <= q < j + 1 && 0 <= t < ch[q].1.len() && ch[q].0 == arc && #[trigger] ch[q].1[t].model_id == m) by {
                    if exists|t: int| 0 <= t < bs@.len() && #[trigger] ch[j as int].1[t].model_id == m {
                        let t = choose|t: int| 0 <= t < bs@.len() && #[trigger] ch[j as int].1[t].model_id == m;
                        assert(0 <= j < j + 1 && 0 <= t < ch[j as int].1.len() && ch[j as int].0 == arc && ch[j as int].1[t].model_id == m);
                    }
                    if exists|q: int, t: int| 0 <= q < j + 1 && 0 <= t < ch[q].1.len() && ch[q].0 == arc && #[trigger] ch[q].1[t].model_id == m {
                        let (q, t) = choose|q: int, t: int| 0 <= q < j + 1 && 0 <= t < ch[q].1.len() && ch[q].0 == arc && #[trigger] ch[q].1[t].model_id == m;
                        if q == j {
                            assert(ch[j as int].1[t].model_id == m);
                        }
                    }
                }
            }
        } else {
            proof {
                assert forall|m: u16| m < 4096 implies (#[trigger] marks@[m as int] == exists|q: int, t: int| 0 <= q < j + 1 && 0 <= t < ch[q].1.len() && ch[q].0 == arc && #[trigger] ch[q].1[t].model_id == m) by {
                    if exists|q: int, t: int| 0 <= q < j + 1 && 0 <= t < ch[q].1.len() && ch[q].0 == arc && #[trigger] ch[q].1[t].model_id == m {
                        let (q, t) = choose|q: int, t: int| 0 <= q < j + 1 && 0 <= t < ch[q].1.len() && ch[q].0 == arc && #[trigger] ch[q].1[t].model_id == m;
                        assert(q != j);
                    }
                }
            }
        }
        j = j + 1;
    }
    let mut ids: Vec<u16> = Vec::new();
    let mut m: usize = 0;
    while m < 4096
        invariant
            ch == chunk_view(chunks@),
            m <= 4096,
            marks@.len() == 4096,
            forall|x: u16| x < 4096 ==> (#[trigger] marks@[x as int] == model_used(ch, arc, x)),
            ids@ == models_below(ch, arc, m as int),
        decreases 4096 - m,
    {
        if marks[m] {
            ids.push(m as u16);
        }
        m = m + 1;
    }
    ids
}


proof fn lemma_chunk_building_ids_of(bs: Seq<Building>, x: (u16, u16, Seq<Building>))
    requires
        bs == x.2,
        forall|i: int| 0 <= i < x.2.len() ==> (#[trigger] x.2[i]).model_id < 4096,
    ensures
        forall|i: int| 0 <= i < bs.len() ==> (#[trigger] bs[i]).model_id < 4096,
{
}

proof fn lemma_push_built(
    b0: Seq<(u16, u16, Seq<Building>)>,
    x: (u16, u16, Seq<Building>),
    p0: Seq<(u32, Seq<BuildingPlacement>)>,
    list: Seq<BuildingPlacement>,
)
    requires
        p0 == placements_of(b0),
        list == x.2.map_values(|b: Building| placement_of(x.1, b)),
    ensures
        p0.push((x.0 as u32, list)) == placements_of(b0.push(x)),
        arcs_of(b0).push((x.1, x.2)) == arcs_of(b0.push(x)),
{
    let l = placements_of(b0.push(x));
    assert(l[b0.len() as int].1 =~= list);
    assert(p0.push((x.0 as u32, list)) =~= l);
    assert(arcs_of(b0).push((x.1, x.2)) =~= arcs_of(b0.push(x)));
}

/// The placements of the buildings of a chunk whose area uses prop archive `arc`.
fn place_all(bs: &Vec<Building>, arc: u16) -> (list: Vec<BuildingPlacement>)
    ensures
        list@ == bs@.map_values(|b: Building| placement_of(arc, b)),
{
    let mut list: Vec<BuildingPlacement> = Vec::with_capacity(bs.len());
    let mut k: usize = 0;
    while k < bs.len()
        invariant
            k <= bs.len(),
            list@ == bs@.subrange(0, k as int).map_values(|b: Building| placement_of(arc, b)),
        decreases bs.len() - k,
    {
        let b = bs[k];
        list.push(BuildingPlacement {
            glb_key: building_key(arc, b.model_id),
            position: b.position,
            rotation: b.rotation,
            scale: b.scale,
        });
        proof {
            assert(list@ =~= bs@.subrange(0, k + 1).map_values(|b: Building| placement_of(arc, b)));
        }
        k = k + 1;
    }
    assert(bs@.subrange(0, bs@.len() as int) =~= bs@);
    list
}

/// What the first cell of chunk `lid` contributes: its area's prop archive and
/// its buildings, when all are known and there are buildings.
fn chunk_step(
    land: &Narc,
    area_narc: &Narc,
    areas: &LandTable<usize>,
    lid: u16,
    fresh: bool,
    Ghost(ld): Ghost<Seq<u8>>,
    Ghost(ad): Ghost<Seq<u8>>,
) -> (step: Option<(u16, Vec<Building>)>)
    requires
        areas.wf(),
        land.parsed_from(ld),
        area_narc.parsed_from(ad),
    ensures
        !fresh ==> step is None,
        fresh ==> match (if areas@.dom().contains(lid) { prop_archive(ad, areas@[lid] as int) } else { None }) {
            None => step is None,
            Some(arc) => match archive_file(ld, lid as int) {
                None => step is None,
                Some(chunk) => if chunk_buildings(chunk).len() == 0 {
                    step is None
                } else {
                    step matches Some((a, bs)) && a == arc && bs@ == chunk_buildings(chunk)
                },
            },
        },
        step matches Some((a, bs)) ==> forall|i: int| 0 <= i < bs@.len() ==> (#[trigger] bs@[i]).model_id < 4096,
{
    if !fresh {
        return None;
    }
    let area = match areas.get(lid) {
        Some(a) => *a,
        None => {
            return None;
        },
    };
    proof {
        lemma_archive_entry(*area_narc, ad, area as int);
        lemma_archive_entry(*land, ld, lid as int);
    }
    let e = match area_narc.file(area) {
        Ok(e) => e,
        Err(_) => {
            return None;
        },
    };
    if e.len() < 2 {
        return None;
    }
    let arc = le16_exec(e, 0);
    let chunk = match land.file(lid as usize) {
        Ok(c) => c,
        Err(_) => {
            return None;
        },
    };
    let bs = parse_buildings(chunk);
    proof {
        lemma_chunk_building_ids(chunk@);
    }
    if bs.len() == 0 {
        return None;
    }
    Some((arc, bs))
}


/// Cell `c`'s neighbour in direction `d` (left, right, up, down) on a `w` x
/// `h` grid, if inside it.
pub open spec fn neighbour_cell(c: int, d: int, w: int, h: int) -> Option<int> {
    let x = c % w;
    let y = c / w;
    let (nx, ny) = if d == 0 { (x - 1, y) } else if d == 1 { (x + 1, y) } else if d == 2 { (x, y - 1) } else { (x, y + 1) };
    if nx < 0 || ny < 0 || nx >= w || ny >= h { None } else { Some(ny * w + nx) }
}

/// What the `d`-th neighbour of cell `c` contributes: (its chunk, the texture
/// set of the neighbouring chunk), when both are real, they differ, and the
/// neighbour's texture set is known.
pub open spec fn contribution(land: Seq<u16>, w: int, h: int, tex: Map<u16, u16>, c: int, d: int) -> Option<(u16, u16)> {
    let lid = land[c];
    if lid == 0xFFFF {
        None
    } else {
        match neighbour_cell(c, d, w, h) {
            None => None,
            Some(n) => {
                let nl = land[n];
                if nl == 0xFFFF || nl == lid || !tex.dom().contains(nl) { None } else { Some((lid, tex[nl])) }
            },
        }
    }
}

/// The contributions of the first `p` (cell, direction) pairs, cells in
/// row-major order and the four directions of each in turn.
pub open spec fn contributions_upto(land: Seq<u16>, w: int, h: int, tex: Map<u16, u16>, p: int) -> Seq<(u16, u16)>
    decreases p,
{
    if p <= 0 {
        seq![]
    } else {
        contributions_upto(land, w, h, tex, p - 1) + match contribution(land, w, h, tex, (p - 1) / 4, (p - 1) % 4) {
            Some(x) => seq![x],
            None => Seq::<(u16, u16)>::empty(),
        }
    }
}

/// How often `(lid, ts)` occurs among the first `k` contributions.
pub open spec fn pair_count(cs: Seq<(u16, u16)>, lid: u16, ts: u16, k: int) -> nat
    decreases k,
{
    if k <= 0 {
        0
    } else {
        pair_count(cs, lid, ts, k - 1) + if cs[k - 1] == (lid, ts) { 1nat } else { 0nat }
    }
}

/// Whether texture set `a` ranks before `b` for chunk `lid`: more frequent
/// first, then the smaller set.
pub open spec fn ranks_before(cs: Seq<(u16, u16)>, lid: u16, a: u16, b: u16) -> bool {
    let ca = pair_count(cs, lid, a, cs.len() as int);
    let cb = pair_count(cs, lid, b, cs.len() as int);
    ca > cb || (ca == cb && a < b)
}

/// Whether `s` lists the texture sets next to chunk `lid`, most frequent first.
pub open spec fn ranked(s: Seq<u16>, cs: Seq<(u16, u16)>, lid: u16) -> bool {
    &&& forall|i: int, j: int| 0 <= i < j < s.len() ==> ranks_before(cs, lid, s[i], s[j])
    &&& forall|t: u16| s.contains(t) <==> pair_count(cs, lid, t, cs.len() as int) > 0
}

/// The neighbour contributions of a matrix.
pub open spec fn neighbour_pairs(m: MapMatrix, tex: Map<u16, u16>) -> Seq<(u16, u16)> {
    contributions_upto(m.land_ids@, m.width as int, m.height as int, tex, 4 * (m.width * m.height))
}

fn neighbour_of(c: usize, d: usize, w: usize, h: usize) -> (r: Option<usize>)
    requires
        w > 0,
        c < w * h,
        w * h <= u32::MAX,
    ensures
        match neighbour_cell(c as int, d as int, w as int, h as int) {
            Some(n) => r == Some(n as usize) && 0 <= n < w * h,
            None => r is None,
        },
{
    let x = c % w;
    let y = c / w;
    assert(y < h) by (nonlinear_arith)
        requires
            c < w * h,
            w > 0,
            y == c / w,
    ;
    assert(y * w + x == c) by (nonlinear_arith)
        requires
            w > 0,
            x == c % w,
            y == c / w,
    ;
    if d == 0 {
        if x == 0 { None } else { Some(y * w + x - 1) }
    } else if d == 1 {
        if x + 1 >= w {
            None
        } else {
            assert(y * w + x + 1 < w * h) by (nonlinear_arith)
                requires
                    y < h,
                    x + 1 < w,
            ;
            Some(y * w + x + 1)
        }
    } else if d == 2 {
        if y == 0 { None } else {
            assert((y - 1) * w + x < w * h) by (nonlinear_arith)
                requires
                    y < h,
                    x < w,
                    y >= 1,
            ;
            Some((y - 1) * w + x)
        }
    } else {
        if y + 1 >= h { None } else {
            assert((y + 1) * w + x < w * h) by (nonlinear_arith)
                requires
                    y + 1 < h,
                    x < w,
            ;
            Some((y + 1) * w + x)
        }
    }
}

/// The (chunk, neighbouring texture set) pairs of the matrix.
fn neighbour_contributions(matrix: &MapMatrix, tex: &LandTable<u16>) -> (out: Vec<(u16, u16)>)
    requires
        matrix_consistent(*matrix),
        tex.wf(),
    ensures
        out@ == neighbour_pairs(*matrix, tex@),
{
    let w = matrix.width as usize;
    let h = matrix.height as usize;
    let cells = w * h;
    let mut out: Vec<(u16, u16)> = Vec::new();
    let mut c: usize = 0;
    while c < cells
        invariant
            matrix_consistent(*matrix),
            tex.wf(),
            w == matrix.width,
            h == matrix.height,
            cells == w * h,
            c <= cells,
            out@ == contributions_upto(matrix.land_ids@, w as int, h as int, tex@, 4 * c),
        decreases cells - c,
    {
        let lid = matrix.land_ids[c];
        let mut d: usize = 0;
        while d < 4
            invariant
                matrix_consistent(*matrix),
                tex.wf(),
                w == matrix.width,
                h == matrix.height,
                cells == w * h,
                c < cells,
                lid == matrix.land_ids@[c as int],
                d <= 4,
                out@ == contributions_upto(matrix.land_ids@, w as int, h as int, tex@, 4 * c + d),
            decreases 4 - d,
        {
            assert((4 * c + d) / 4 == c && (4 * c + d) % 4 == d);
            if lid != 0xFFFF {
                if let Some(n) = neighbour_of(c, d, w, h) {
                    let nl = matrix.land_ids[n];
                    if nl != 0xFFFF && nl != lid {
                        if let Some(ts) = tex.get(nl) {
                            out.push((lid, *ts));
                        }
                    }
                }
            }
            proof {
                assert(out@ =~= contributions_upto(matrix.land_ids@, w as int, h as int, tex@, 4 * c + d + 1));
            }
            d = d + 1;
        }
        c = c + 1;
    }
    out
}

/// Orders the texture sets next to chunk `lid`: counted over the pairs, then
/// ranked most frequent first.
fn rank_texsets(cs: &Vec<(u16, u16)>, lid: u16) -> (out: Vec<u16>)
    ensures
        ranked(out@, cs@, lid),
{
    let ghost all = cs@;
    let ghost n = all.len() as int;
    // Count each texture set.
    let mut counts: Vec<(u16, usize)> = Vec::new();
    let mut j: usize = 0;
    while j < cs.len()
        invariant
            all == cs@,
            n == all.len(),
            j <= cs.len(),
            forall|a: int, b: int| 0 <= a < b < counts@.len() ==> counts@[a].0 != counts@[b].0,
            forall|a: int| 0 <= a < counts@.len() ==> (#[trigger] counts@[a]).1 == pair_count(all, lid, counts@[a].0, j as int)
                && counts@[a].1 > 0,
            forall|t: u16| #[trigger] pair_count(all, lid, t, j as int) > 0 ==> exists|a: int| 0 <= a < counts@.len() && (#[trigger] counts@[a]).0 == t,
        decreases cs.len() - j,
    {
        let (l, t) = cs[j];
        let ghost c0 = counts@;
        if l == lid {
            let mut k: usize = 0;
            while k < counts.len() && counts[k].0 != t
                invariant
                    k <= counts@.len(),
                    forall|a: int| 0 <= a < k ==> (#[trigger] counts@[a]).0 != t,
                decreases counts.len() - k,
            {
                k = k + 1;
            }
            if k < counts.len() {
                let c = counts[k].1;
                assert(c <= j) by {
                    lemma_pair_count_bound(all, lid, t, j as int);
                }
                counts.set(k, (t, c + 1));
            } else {
                counts.push((t, 1));
            }
        }
        proof {
            assert forall|a: int| 0 <= a < counts@.len() implies (#[trigger] counts@[a]).1 == pair_count(all, lid, counts@[a].0, j + 1)
                && counts@[a].1 > 0 by {
                if a < c0.len() {
                    assert(counts@[a].0 == c0[a].0);
                }
            }
            assert forall|u: u16| #[trigger] pair_count(all, lid, u, j + 1) > 0 implies exists|a: int| 0 <= a < counts@.len() && (#[trigger] counts@[a]).0 == u by {
                if pair_count(all, lid, u, j as int) > 0 {
                    let a = choose|a: int| 0 <= a < c0.len() && (#[trigger] c0[a]).0 == u;
                    assert(counts@[a].0 == u);
                } else {
                    assert(all[j as int] == (lid, u));
                    if l == lid {
                        if exists|a: int| 0 <= a < c0.len() && (#[trigger] c0[a]).0 == u {
                            let a = choose|a: int| 0 <= a < c0.len() && (#[trigger] c0[a]).0 == u;
                            assert(counts@[a].0 == u);
                        } else {
                            assert(counts@[c0.len() as int].0 == u);
                        }
                    }
                }
            }
        }
        j = j + 1;
    }
    // Insert each into a list kept in rank order.
    let mut sorted: Vec<(u16, usize)> = Vec::new();
    let mut i: usize = 0;
    while i < counts.len()
        invariant
            all == cs@,
            n == all.len(),
            i <= counts@.len(),
            forall|a: int, b: int| 0 <= a < b < counts@.len() ==> counts@[a].0 != counts@[b].0,
            forall|a: int| 0 <= a < counts@.len() ==> (#[trigger] counts@[a]).1 == pair_count(all, lid, counts@[a].0, n)
                && counts@[a].1 > 0,
            forall|t: u16| #[trigger] pair_count(all, lid, t, n) > 0 ==> exists|a: int| 0 <= a < counts@.len() && (#[trigger] counts@[a]).0 == t,
            forall|a: int, b: int| 0 <= a < b < sorted@.len() ==> ranks_before(all, lid, sorted@[a].0, sorted@[b].0),
            forall|a: int| 0 <= a < sorted@.len() ==> (#[trigger] sorted@[a]).1 == pair_count(all, lid, sorted@[a].0, n),
            forall|t: u16| #![trigger holds_ts(sorted@, sorted@.len() as int, t)] #![trigger holds_ts(counts@, i as int, t)]
                holds_ts(sorted@, sorted@.len() as int, t) <==> holds_ts(counts@, i as int, t),
        decreases counts.len() - i,
    {
        let (t, c) = counts[i];
        let mut k: usize = 0;
        while k < sorted.len() && (sorted[k].1 > c || (sorted[k].1 == c && sorted[k].0 < t))
            invariant
                n == all.len(),
                k <= sorted@.len(),
                c == pair_count(all, lid, t, n),
                forall|a: int| 0 <= a < sorted@.len() ==> (#[trigger] sorted@[a]).1 == pair_count(all, lid, sorted@[a].0, n),
                forall|a: int| 0 <= a < k ==> ranks_before(all, lid, #[trigger] sorted@[a].0, t),
            decreases sorted.len() - k,
        {
            assert(ranks_before(all, lid, sorted@[k as int].0, t));
            k = k + 1;
        }
        let ghost s0 = sorted@;
        proof {
            assert forall|a: int| 0 <= a < s0.len() implies s0[a].0 != t by {
                assert(holds_ts(s0, s0.len() as int, s0[a].0));
                let b = choose|b: int| 0 <= b < i && (#[trigger] counts@[b]).0 == s0[a].0;
                assert(counts@[b].0 != counts@[i as int].0);
            }
            if k < s0.len() {
                assert(!ranks_before(all, lid, s0[k as int].0, t));
                assert(s0[k as int].0 != t);
                assert(ranks_before(all, lid, t, s0[k as int].0));
            }
        }
        sorted.insert(k, (t, c));
        proof {
            assert forall|a: int, b: int| 0 <= a < b < sorted@.len() implies ranks_before(all, lid, sorted@[a].0, sorted@[b].0) by {
                if a < k && b == k {
                } else if a < k && b > k {
                    assert(sorted@[b] == s0[b - 1]);
                    if k < s0.len() {
                        assert(ranks_before(all, lid, t, s0[k as int].0));
                        if b - 1 > k {
                            assert(ranks_before(all, lid, s0[k as int].0, s0[b - 1].0));
                        }
                    }
                } else if a == k {
                    assert(sorted@[b] == s0[b - 1]);
                    if b - 1 > k {
                        assert(ranks_before(all, lid, s0[k as int].0, s0[b - 1].0));
                    }
                } else if a > k {
                    assert(sorted@[a] == s0[a - 1] && sorted@[b] == s0[b - 1]);
                } else {
                    assert(sorted@[a] == s0[a] && sorted@[b] == s0[b]);
                }
            }
            assert forall|u: u16| holds_ts(sorted@, sorted@.len() as int, u) implies holds_ts(counts@, i + 1, u) by {
                let a = choose|a: int| 0 <= a < sorted@.len() && (#[trigger] sorted@[a]).0 == u;
                if a == k {
                    assert(counts@[i as int].0 == u);
                } else if a < k {
                    assert(sorted@[a] == s0[a]);
                    assert(holds_ts(s0, s0.len() as int, u));
                    assert(holds_ts(counts@, i as int, u));
                    let b = choose|b: int| 0 <= b < i && (#[trigger] counts@[b]).0 == u;
                    assert(counts@[b].0 == u);
                } else {
                    assert(sorted@[a] == s0[a - 1]);
                    assert(holds_ts(s0, s0.len() as int, u));
                    assert(holds_ts(counts@, i as int, u));
                    let b = choose|b: int| 0 <= b < i && (#[trigger] counts@[b]).0 == u;
                    assert(counts@[b].0 == u);
                }
            }
            assert forall|u: u16| holds_ts(counts@, i + 1, u) implies holds_ts(sorted@, sorted@.len() as int, u) by {
                let a = choose|a: int| 0 <= a < i + 1 && (#[trigger] counts@[a]).0 == u;
                if a == i {
                    assert(sorted@[k as int].0 == u);
                } else {
                    assert(holds_ts(counts@, i as int, u));
                    assert(holds_ts(s0, s0.len() as int, u));
                    let b = choose|b: int| 0 <= b < s0.len() && (#[trigger] s0[b]).0 == u;
                    if b < k {
                        assert(sorted@[b] == s0[b]);
                    } else {
                        assert(sorted@[b + 1] == s0[b]);
                    }
                }
            }
        }
        i = i + 1;
    }
    let mut out: Vec<u16> = Vec::new();
    let mut r: usize = 0;
    while r < sorted.len()
        invariant
            r <= sorted@.len(),
            out@ == sorted@.subrange(0, r as int).map_values(|x: (u16, usize)| x.0),
        decreases sorted.len() - r,
    {
        out.push(sorted[r].0);
        proof {
            assert(out@ =~= sorted@.subrange(0, r + 1).map_values(|x: (u16, usize)| x.0));
        }
        r = r + 1;
    }
    proof {
        assert(sorted@.subrange(0, sorted@.len() as int) =~= sorted@);
        assert forall|t: u16| out@.contains(t) <==> pair_count(all, lid, t, n) > 0 by {
            if out@.contains(t) {
                let a = choose|a: int| 0 <= a < out@.len() && out@[a] == t;
                assert(sorted@[a].0 == t);
                assert(holds_ts(sorted@, sorted@.len() as int, t));
                let b = choose|b: int| 0 <= b < counts@.len() && (#[trigger] counts@[b]).0 == t;
            }
            if pair_count(all, lid, t, n) > 0 {
                let a = choose|a: int| 0 <= a < counts@.len() && (#[trigger] counts@[a]).0 == t;
                assert(holds_ts(counts@, counts@.len() as int, t));
                let b = choose|b: int| 0 <= b < sorted@.len() && (#[trigger] sorted@[b]).0 == t;
                assert(out@[b] == t);
            }
        }
    }
    out
}

/// Whether one of the first `k` entries of `s` is for texture set `t`.
spec fn holds_ts(s: Seq<(u16, usize)>, k: int, t: u16) -> bool {
    exists|a: int| 0 <= a < k && (#[trigger] s[a]).0 == t
}

proof fn lemma_pair_count_bound(cs: Seq<(u16, u16)>, lid: u16, ts: u16, k: int)
    requires
        0 <= k,
    ensures
        pair_count(cs, lid, ts, k) <= k,
    decreases k,
{
    if k > 0 {
        lemma_pair_count_bound(cs, lid, ts, k - 1);
    }
}

/// For each land chunk, the texture sets used by spatially adjacent cells
/// holding a different chunk, most frequent first: border chunks are
/// textured the way the engine draws them, with the neighbouring area's set.
pub fn neighbour_texsets(matrix: &MapMatrix, texset_by_land: &LandTable<u16>) -> (out: LandTable<Vec<u16>>)
    requires
        matrix_consistent(*matrix),
        texset_by_land.wf(),
    ensures
        out.wf(),
        forall|lid: u16| out@.dom().contains(lid) <==> exists|j: int|
            0 <= j < neighbour_pairs(*matrix, texset_by_land@).len() && (#[trigger] neighbour_pairs(*matrix, texset_by_land@)[j]).0 == lid,
        forall|lid: u16| out@.dom().contains(lid) ==> ranked(#[trigger] out@[lid]@, neighbour_pairs(*matrix, texset_by_land@), lid),
{
    let cs = neighbour_contributions(matrix, texset_by_land);
    let ghost all = cs@;
    let mut present: Vec<bool> = Vec::with_capacity(0x10000);
    let mut i: usize = 0;
    while i < 0x10000
        invariant
            i <= 0x10000,
            present@.len() == i,
            forall|j: int| 0 <= j < i ==> !present@[j],
        decreases 0x10000 - i,
    {
        present.push(false);
        i = i + 1;
    }
    let mut j: usize = 0;
    while j < cs.len()
        invariant
            all == cs@,
            j <= cs.len(),
            present@.len() == 0x10000,
            forall|x: u16| #[trigger] present@[x as int] == exists|q: int| 0 <= q < j && (#[trigger] all[q]).0 == x,
        decreases cs.len() - j,
    {
        let l = cs[j].0;
        present.set(l as usize, true);
        proof {
            assert forall|x: u16| #[trigger] present@[x as int] == exists|q: int| 0 <= q < j + 1 && (#[trigger] all[q]).0 == x by {
                if x == l {
                    assert(all[j as int].0 == x);
                } else if exists|q: int| 0 <= q < j + 1 && (#[trigger] all[q]).0 == x {
                    let q = choose|q: int| 0 <= q < j + 1 && (#[trigger] all[q]).0 == x;
                    assert(q < j);
                }
            }
        }
        j = j + 1;
    }
    let mut out: LandTable<Vec<u16>> = LandTable::new();
    let mut lid: usize = 0;
    while lid < 0x10000
        invariant
            all == cs@,
            all == neighbour_pairs(*matrix, texset_by_land@),
            lid <= 0x10000,
            out.wf(),
            present@.len() == 0x10000,
            forall|x: u16| #[trigger] present@[x as int] == exists|q: int| 0 <= q < all.len() && (#[trigger] all[q]).0 == x,
            forall|x: u16| #[trigger] out@.dom().contains(x) <==> (x < lid && present@[x as int]),
            forall|x: u16| out@.dom().contains(x) ==> ranked(#[trigger] out@[x]@, all, x),
        decreases 0x10000 - lid,
    {
        let ghost o0 = out@;
        assert((lid as u16) as int == lid);
        if present[lid] {
            let order = rank_texsets(&cs, lid as u16);
            out.insert(lid as u16, order);
            proof {
                assert forall|x: u16| out@.dom().contains(x) <==> (x < lid + 1 && present@[x as int]) by {
                    if x as int == lid {
                        assert(x == lid as u16);
                        assert(out@.dom().contains(x));
                        assert(present@[x as int]);
                    } else {
                        assert(out@.dom().contains(x) == o0.dom().contains(x));
                    }
                }
                assert forall|x: u16| out@.dom().contains(x) implies ranked(#[trigger] out@[x]@, all, x) by {
                    if x as int != lid {
                        assert(o0.dom().contains(x));
                        assert(out@[x] == o0[x]);
                    }
                }
            }
        } else {
            proof {
                assert forall|x: u16| out@.dom().contains(x) <==> (x < lid + 1 && present@[x as int]) by {
                    if x as int == lid {
                        assert(x == lid as u16);
                        assert(!present@[x as int]);
                        assert(!o0.dom().contains(x));
                    } else {
                        assert(out@.dom().contains(x) == o0.dom().contains(x));
                    }
                }
            }
        }
        lid = lid + 1;
    }
    out
}


/// Texture set `ts` of the texture archive image `image`/`entries`, when it
/// is a "BTX0" file.
pub open spec fn btx_file(image: Seq<u8>, entries: Seq<(u32, u32)>, ts: int) -> Option<Seq<u8>> {
    match entry_bytes(image, entries, ts) {
        Ok(f) => if f.len() >= 4 && f.subrange(0, 4) == seq![66u8, 84u8, 88u8, 48u8] { Some(f) } else { None },
        Err(_) => None,
    }
}

/// The terrain model of chunk `lid` in a terrain list (its first entry).
pub open spec fn terrain_of(t: Seq<(u32, Seq<u8>)>, lid: u32) -> Option<Seq<u8>>
    decreases t.len(),
{
    if t.len() == 0 {
        None
    } else if t[0].0 == lid {
        Some(t[0].1)
    } else {
        terrain_of(t.drop_first(), lid)
    }
}

fn terrain_lookup<'a>(terrains: &Vec<(u32, &'a [u8])>, lid: u32) -> (r: Option<&'a [u8]>)
    ensures
        match terrain_of(terrain_view(terrains@), lid) {
            Some(m) => r matches Some(s) && s@ == m,
            None => r is None,
        },
{
    let ghost t = terrain_view(terrains@);
    let mut i: usize = 0;
    assert(t.subrange(0, t.len() as int) =~= t);
    while i < terrains.len()
        invariant
            t == terrain_view(terrains@),
            i <= terrains.len(),
            terrain_of(t, lid) == terrain_of(t.subrange(i as int, t.len() as int), lid),
        decreases terrains.len() - i,
    {
        proof {
            assert(t.subrange(i as int, t.len() as int).drop_first() =~= t.subrange(i + 1, t.len() as int));
        }
        if terrains[i].0 == lid {
            return Some(terrains[i].1);
        }
        i = i + 1;
    }
    None
}

/// The buffers decoded together for the chunks `lids` drawn with texture set
/// `ts`: each chunk's terrain model (chunks without one are skipped), then
/// the texture set when it is a "BTX0" file.
pub open spec fn group_buffers_of(t: Seq<(u32, Seq<u8>)>, lids: Seq<u32>, image: Seq<u8>, entries: Seq<(u32, u32)>, ts: int) -> Seq<Seq<u8>>
    decreases lids.len(),
{
    if lids.len() == 0 {
        match btx_file(image, entries, ts) {
            Some(f) => seq![f],
            None => seq![],
        }
    } else {
        (match terrain_of(t, lids[0]) {
            Some(m) => seq![m],
            None => Seq::<Seq<u8>>::empty(),
        }) + group_buffers_of(t, lids.drop_first(), image, entries, ts)
    }
}

/// The buffers to decode for one texture-set group of chunks.
pub fn group_buffers<'a>(terrains: &Vec<(u32, &'a [u8])>, lids: &Vec<u32>, tex: &Narc<'a>, ts: u16) -> (out: Vec<&'a [u8]>)
    ensures
        out@.map_values(|b: &'a [u8]| b@) == group_buffers_of(terrain_view(terrains@), lids@, tex.image(), tex.entries(), ts as int),
{
    let ghost t = terrain_view(terrains@);
    let mut out: Vec<&'a [u8]> = Vec::new();
    let mut i: usize = 0;
    assert(lids@.subrange(0, lids@.len() as int) =~= lids@);
    while i < lids.len()
        invariant
            t == terrain_view(terrains@),
            i <= lids.len(),
            out@.map_values(|b: &'a [u8]| b@) + group_buffers_of(t, lids@.subrange(i as int, lids@.len() as int), tex.image(), tex.entries(), ts as int)
                == group_buffers_of(t, lids@, tex.image(), tex.entries(), ts as int),
        decreases lids.len() - i,
    {
        let ghost o0 = out@.map_values(|b: &'a [u8]| b@);
        let ghost rest = lids@.subrange(i as int, lids@.len() as int);
        proof {
            assert(rest.drop_first() =~= lids@.subrange(i + 1, lids@.len() as int));
        }
        match terrain_lookup(terrains, lids[i]) {
            Some(m) => {
                out.push(m);
                proof {
                    assert(out@.map_values(|b: &'a [u8]| b@) =~= o0 + seq![m@]);
                    assert(o0 + seq![m@] + group_buffers_of(t, rest.drop_first(), tex.image(), tex.entries(), ts as int)
                        =~= o0 + group_buffers_of(t, rest, tex.image(), tex.entries(), ts as int));
                }
            },
            None => {
                proof {
                    assert(group_buffers_of(t, rest, tex.image(), tex.entries(), ts as int)
                        =~= group_buffers_of(t, rest.drop_first(), tex.image(), tex.entries(), ts as int));
                }
            },
        }
        i = i + 1;
    }
    let ghost o1 = out@.map_values(|b: &'a [u8]| b@);
    assert(lids@.subrange(lids@.len() as int, lids@.len() as int) =~= Seq::<u32>::empty());
    match texset_file(tex, ts) {
        Some(f) => {
            out.push(f);
            assert(out@.map_values(|b: &'a [u8]| b@) =~= o1 + seq![f@]);
        },
        None => {
            assert(o1 + Seq::<Seq<u8>>::empty() =~= o1);
        },
    }
    out
}

/// The texture sets to try, in order, when chunk `lid` decodes untextured:
/// its neighbours' sets (most frequent first) that are "BTX0" files.
pub open spec fn retexture_options(order: Seq<u16>, image: Seq<u8>, entries: Seq<(u32, u32)>) -> Seq<Seq<u8>>
    decreases order.len(),
{
    if order.len() == 0 {
        seq![]
    } else {
        (match btx_file(image, entries, order[0] as int) {
            Some(f) => seq![f],
            None => Seq::<Seq<u8>>::empty(),
        }) + retexture_options(order.drop_first(), image, entries)
    }
}

/// The texture-set files to try for an untextured chunk `lid`, in order.
pub fn retexture_candidates<'a>(neighbours: &LandTable<Vec<u16>>, lid: u16, tex: &Narc<'a>) -> (out: Vec<&'a [u8]>)
    requires
        neighbours.wf(),
    ensures
        neighbours@.dom().contains(lid) ==> out@.map_values(|b: &'a [u8]| b@) == retexture_options(neighbours@[lid]@, tex.image(), tex.entries()),
        !neighbours@.dom().contains(lid) ==> out@.len() == 0,
{
    let mut out: Vec<&'a [u8]> = Vec::new();
    let order = match neighbours.get(lid) {
        Some(o) => o,
        None => {
            return out;
        },
    };
    let mut i: usize = 0;
    assert(order@.subrange(0, order@.len() as int) =~= order@);
    while i < order.len()
        invariant
            i <= order.len(),
            out@.map_values(|b: &'a [u8]| b@) + retexture_options(order@.subrange(i as int, order@.len() as int), tex.image(), tex.entries())
                == retexture_options(order@, tex.image(), tex.entries()),
        decreases order.len() - i,
    {
        let ghost o0 = out@.map_values(|b: &'a [u8]| b@);
        let ghost rest = order@.subrange(i as int, order@.len() as int);
        proof {
            assert(rest.drop_first() =~= order@.subrange(i + 1, order@.len() as int));
        }
        match texset_file(tex, order[i]) {
            Some(f) => {
                out.push(f);
                proof {
                    assert(out@.map_values(|b: &'a [u8]| b@) =~= o0 + seq![f@]);
                    assert(o0 + seq![f@] + retexture_options(rest.drop_first(), tex.image(), tex.entries())
                        =~= o0 + retexture_options(rest, tex.image(), tex.entries()));
                }
            },
            None => {
                proof {
                    assert(retexture_options(rest, tex.image(), tex.entries()) =~= retexture_options(rest.drop_first(), tex.image(), tex.entries()));
                }
            },
        }
        i = i + 1;
    }
    assert(order@.subrange(order@.len() as int, order@.len() as int) =~= Seq::<u16>::empty());
    assert(out@.map_values(|b: &'a [u8]| b@) + Seq::<Seq<u8>>::empty() =~= out@.map_values(|b: &'a [u8]| b@));
    out
}


/// What is known of each texture-set group of a chunk plan: its set, its
/// chunks and the buffers to decode for it, as `texset_groups` and
/// `group_buffers` give them.
pub open spec fn groups_planned<'a>(gs: Seq<(u16, Vec<u32>, Vec<&'a [u8]>)>, tex: Map<u16, u16>,
    t: Seq<(u32, Seq<u8>)>, image: Seq<u8>, entries: Seq<(u32, u32)>) -> bool {
    let want = texset_groups_of(tex, t);
    &&& gs.len() == want.len()
    &&& forall|i: int| 0 <= i < gs.len() ==> {
        &&& (#[trigger] gs[i]).0 == want[i].0
        &&& gs[i].1@ == want[i].1
        &&& gs[i].2@.map_values(|b: &'a [u8]| b@) == group_buffers_of(t, want[i].1, image, entries, want[i].0 as int)
    }
}

/// How an overworld's terrain is decoded: the land archive and each chunk's
/// terrain model; when every chunk's texture set resolves and the texture
/// archive parses, the chunks grouped by texture set with the buffers to
/// decode per group, and each chunk's neighbouring texture sets to retry an
/// untextured chunk with (else the terrain models are decoded untextured).
pub struct ChunkPlan<'a> {
    pub land: Option<Narc<'a>>,
    pub textures: Option<Narc<'a>>,
    pub terrains: Vec<(u32, &'a [u8])>,
    pub groups: Option<Vec<(u16, Vec<u32>, Vec<&'a [u8]>)>>,
    pub neighbours: Option<LandTable<Vec<u16>>>,
}

/// Whether `p` is the chunk plan of the overworld `src` / `m` of `rom`.
pub open spec fn chunk_plan_of<'a>(rom: Rom, src: MapSource, m: MapMatrix, p: ChunkPlan<'a>) -> bool {
    match path_file(rom, src.land_path@) {
        Some(ld) if archive_model(ld) is Ok => {
            &&& p.land matches Some(land) && land.parsed_from(ld)
                && terrain_view(p.terrains@) == terrains_upto(land, land.entries().len() as int)
            &&& match (texsets_of(rom, src, m), path_file(rom, src.texset_path@)) {
                (Some(tex), Some(td)) if archive_model(td) is Ok => match (p.textures, p.groups, p.neighbours) {
                    (Some(t), Some(gs), Some(nb)) => {
                        &&& t.parsed_from(td)
                        &&& groups_planned(gs@, tex, terrain_view(p.terrains@), t.image(), t.entries())
                        &&& nb.wf()
                        &&& forall|lid: u16| nb@.dom().contains(lid) <==> exists|j: int|
                            0 <= j < neighbour_pairs(m, tex).len() && (#[trigger] neighbour_pairs(m, tex)[j]).0 == lid
                        &&& forall|lid: u16| nb@.dom().contains(lid) ==> ranked(#[trigger] nb@[lid]@, neighbour_pairs(m, tex), lid)
                    },
                    _ => false,
                },
                _ => p.groups is None && p.neighbours is None,
            }
        },
        _ => p.land is None && p.terrains@.len() == 0 && p.groups is None && p.neighbours is None,
    }
}

/// Plans the decoding of the overworld's terrain: each land chunk's terrain
/// model, grouped by its area's texture set so each set is decoded once, and
/// the neighbouring sets that border chunks are retextured with.
pub fn plan_chunks<'a>(rom: &'a Rom, src: &MapSource, matrix: &MapMatrix) -> (r: ChunkPlan<'a>)
    requires
        matrix_consistent(*matrix),
        arm9_fits(arm9_bytes(rom.bytes(), rom.hdr()), src.layout),
    ensures
        chunk_plan_of(*rom, *src, *matrix, r),
{
    let land = match archive_at(rom, src.land_path.as_str()) {
        Some(l) => l,
        None => {
            return ChunkPlan { land: None, textures: None, terrains: Vec::new(), groups: None, neighbours: None };
        },
    };
    let terrains = terrain_chunks(&land);
    let tex_by_land = match resolve_texsets(rom, src, matrix) {
        Some(t) => t,
        None => {
            return ChunkPlan { land: Some(land), textures: None, terrains, groups: None, neighbours: None };
        },
    };
    let tex = match archive_at(rom, src.texset_path.as_str()) {
        Some(t) => t,
        None => {
            return ChunkPlan { land: Some(land), textures: None, terrains, groups: None, neighbours: None };
        },
    };
    let grouped = texset_groups(&tex_by_land, &terrains);
    let ghost want = texset_groups_of(tex_by_land@, terrain_view(terrains@));
    let mut groups: Vec<(u16, Vec<u32>, Vec<&'a [u8]>)> = Vec::new();
    let mut i: usize = 0;
    while i < grouped.len()
        invariant
            i <= grouped@.len(),
            grouped@.map_values(|g: (u16, Vec<u32>)| (g.0, g.1@)) == want,
            groups@.len() == i,
            forall|j: int| 0 <= j < i ==> {
                &&& (#[trigger] groups@[j]).0 == want[j].0
                &&& groups@[j].1@ == want[j].1
                &&& groups@[j].2@.map_values(|b: &'a [u8]| b@)
                    == group_buffers_of(terrain_view(terrains@), want[j].1, tex.image(), tex.entries(), want[j].0 as int)
            },
        decreases grouped@.len() - i,
    {
        let ts = grouped[i].0;
        let mut lids: Vec<u32> = Vec::new();
        let mut k: usize = 0;
        while k < grouped[i].1.len()
            invariant
                i < grouped@.len(),
                k <= grouped@[i as int].1@.len(),
                lids@ == grouped@[i as int].1@.subrange(0, k as int),
            decreases grouped@[i as int].1@.len() - k,
        {
            lids.push(grouped[i].1[k]);
            k = k + 1;
        }
        proof {
            assert(lids@ =~= grouped@[i as int].1@);
            assert(want[i as int] == (grouped@[i as int].0, grouped@[i as int].1@));
        }
        let bufs = group_buffers(&terrains, &lids, &tex, ts);
        groups.push((ts, lids, bufs));
        i = i + 1;
    }
    let neighbours = neighbour_texsets(matrix, &tex_by_land);
    proof {
        assert(want.len() == grouped@.len());
    }
    ChunkPlan { land: Some(land), textures: Some(tex), terrains, groups: Some(groups), neighbours: Some(neighbours) }
}

/// The files of models `ids` of a build archive, in order, when every one
/// can be read.
pub open spec fn model_files(image: Seq<u8>, entries: Seq<(u32, u32)>, ids: Seq<u16>) -> Option<Seq<Seq<u8>>>
    decreases ids.len(),
{
    if ids.len() == 0 {
        Some(seq![])
    } else {
        match (entry_bytes(image, entries, ids[0] as int), model_files(image, entries, ids.drop_first())) {
            (Ok(f), Some(rest)) => Some(seq![f] + rest),
            _ => None,
        }
    }
}

/// The buffers to decode for the models `ids` textured by prop archive `arc`:
/// the model files, then the prop texture set when it is a "BTX0" file; none
/// when a model file cannot be read (the models are then skipped).
pub fn model_buffers<'a>(build: &Narc<'a>, prop_tex: &Narc<'a>, arc: u16, ids: &Vec<u16>) -> (r: Option<Vec<&'a [u8]>>)
    ensures
        match model_files(build.image(), build.entries(), ids@) {
            Some(fs) => r matches Some(b) && b@.map_values(|x: &'a [u8]| x@) == fs + match btx_file(prop_tex.image(), prop_tex.entries(), arc as int) {
                Some(f) => seq![f],
                None => Seq::<Seq<u8>>::empty(),
            },
            None => r is None,
        },
{
    let ghost img = build.image();
    let ghost ents = build.entries();
    let mut out: Vec<&'a [u8]> = Vec::new();
    let mut i: usize = 0;
    assert(ids@.subrange(0, ids@.len() as int) =~= ids@);
    while i < ids.len()
        invariant
            i <= ids@.len(),
            img == build.image(),
            ents == build.entries(),
            match model_files(img, ents, ids@.subrange(i as int, ids@.len() as int)) {
                Some(rest) => model_files(img, ents, ids@) == Some(out@.map_values(|x: &'a [u8]| x@) + rest),
                None => model_files(img, ents, ids@) is None,
            },
        decreases ids@.len() - i,
    {
        let ghost o0 = out@.map_values(|x: &'a [u8]| x@);
        let ghost rest = ids@.subrange(i as int, ids@.len() as int);
        proof {
            assert(rest.drop_first() =~= ids@.subrange(i + 1, ids@.len() as int));
            assert(rest[0] == ids@[i as int]);
        }
        match build.file(ids[i] as usize) {
            Ok(f) => {
                out.push(f);
                proof {
                    assert(out@.map_values(|x: &'a [u8]| x@) =~= o0.push(f@));
                    if let Some(r2) = model_files(img, ents, rest.drop_first()) {
                        assert(o0 + (seq![f@] + r2) =~= o0.push(f@) + r2);
                    }
                }
            },
            Err(_) => {
                return None;
            },
        }
        i = i + 1;
    }
    let ghost o1 = out@.map_values(|x: &'a [u8]| x@);
    assert(ids@.subrange(ids@.len() as int, ids@.len() as int) =~= Seq::<u16>::empty());
    assert(o1 + Seq::<Seq<u8>>::empty() =~= o1);
    match texset_file(prop_tex, arc) {
        Some(f) => {
            out.push(f);
            assert(out@.map_values(|x: &'a [u8]| x@) =~= o1 + seq![f@]);
        },
        None => {},
    }
    Some(out)
}

/// Whether each planned model group matches the model keys of placement:
/// its prop archive and model ids, and, when both archives parse, the
/// buffers `model_buffers` gives for it.
pub open spec fn models_planned<'a>(ms: Seq<(u16, Vec<u16>, Option<Vec<&'a [u8]>>)>, want: Seq<(u16, Seq<u16>)>,
    build: Option<Narc<'a>>, prop: Option<Narc<'a>>) -> bool {
    &&& ms.len() == want.len()
    &&& forall|i: int| 0 <= i < ms.len() ==> {
        &&& (#[trigger] ms[i]).0 == want[i].0
        &&& ms[i].1@ == want[i].1
        &&& match (build, prop) {
            (Some(b), Some(t)) => match model_files(b.image(), b.entries(), want[i].1) {
                Some(fs) => ms[i].2 matches Some(v) && v@.map_values(|x: &'a [u8]| x@) == fs + match btx_file(t.image(), t.entries(), want[i].0 as int) {
                    Some(f) => seq![f],
                    None => Seq::<Seq<u8>>::empty(),
                },
                None => ms[i].2 is None,
            },
            _ => ms[i].2 is None,
        }
    }
}

/// Whether `n` is the archive at `path` of `rom` (none when it is missing or
/// does not parse).
pub open spec fn archive_of<'a>(rom: Rom, path: Seq<char>, n: Option<Narc<'a>>) -> bool {
    match path_file(rom, path) {
        Some(d) if archive_model(d) is Ok => n matches Some(a) && a.parsed_from(d),
        _ => n is None,
    }
}

/// Everything the model decoder needs for an overworld: where it lives, its
/// matrix, the terrain plan, the building placements per chunk, and per prop
/// archive the building models to decode with their buffers.
pub struct OverworldPlan<'a> {
    pub source: MapSource,
    pub matrix: MapMatrix,
    pub chunks: ChunkPlan<'a>,
    pub placements: Vec<(u32, Vec<BuildingPlacement>)>,
    pub build: Option<Narc<'a>>,
    pub prop_textures: Option<Narc<'a>>,
    pub models: Vec<(u16, Vec<u16>, Option<Vec<&'a [u8]>>)>,
}

/// Whether `p` plans the decoding of its overworld of `rom`.
pub open spec fn overworld_plan_of<'a>(rom: Rom, p: OverworldPlan<'a>) -> bool {
    let b = buildings_of(rom, p.source, p.matrix);
    &&& chunk_plan_of(rom, p.source, p.matrix, p.chunks)
    &&& p.placements@.map_values(|q: (u32, Vec<BuildingPlacement>)| (q.0, q.1@)) == placements_of(b)
    &&& archive_of(rom, p.source.build_path@, p.build)
    &&& archive_of(rom, p.source.prop_texset_path@, p.prop_textures)
    &&& models_planned(p.models@, arcs_below(arcs_of(b), 0x10000), p.build, p.prop_textures)
}

/// A matrix decoded from a file is consistent.
proof fn lemma_model_consistent(mm: MapMatrix, f: Seq<u8>)
    requires
        matrix_model(f) matches Some(m) && mm.model() == m,
    ensures
        matrix_consistent(mm),
{
    assert(f[0] as int * f[1] as int <= 255 * 255) by (nonlinear_arith)
        requires
            f[0] <= 255,
            f[1] <= 255,
    ;
}

/// Detects and plans the decoding of the main overworld of `rom`, when it has
/// one: its location, matrix, terrain chunks grouped by texture set, and its
/// buildings' placements and models.
pub fn plan_overworld<'a>(rom: &'a Rom) -> (r: Option<OverworldPlan<'a>>)
    requires
        overworld_of(*rom) matches Some((g, _)) ==> arm9_fits(arm9_bytes(rom.bytes(), rom.hdr()), layout_of(g)),
    ensures
        match overworld_of(*rom) {
            None => r is None,
            Some((g, i)) => match archive_file(path_file(*rom, paths_of(g).0)->Some_0, i) {
                Some(f) => match matrix_model(f) {
                    Some(m) => r matches Some(p) && {
                        &&& p.source.texts() == paths_of(g)
                        &&& p.source.matrix_index == i
                        &&& p.source.layout == layout_of(g)
                        &&& p.matrix.model() == m
                        &&& overworld_plan_of(*rom, p)
                    },
                    None => r is None,
                },
                None => r is None,
            },
        },
{
    let src = match detect_map(rom) {
        Some(s) => s,
        None => {
            return None;
        },
    };
    let matrix = match load_map_matrix(rom, src.matrix_path.as_str(), src.matrix_index) {
        Some(m) => m,
        None => {
            return None;
        },
    };
    proof {
        let (g, i) = overworld_of(*rom)->Some_0;
        let f = archive_file(path_file(*rom, paths_of(g).0)->Some_0, i)->Some_0;
        lemma_model_consistent(matrix, f);
    }
    let chunks = plan_chunks(rom, &src, &matrix);
    let (placements, groups) = place_buildings(rom, &src, &matrix);
    let build = archive_at(rom, src.build_path.as_str());
    let prop_textures = archive_at(rom, src.prop_texset_path.as_str());
    let ghost want = arcs_below(arcs_of(buildings_of(*rom, src, matrix)), 0x10000);
    let mut models: Vec<(u16, Vec<u16>, Option<Vec<&'a [u8]>>)> = Vec::new();
    let mut i: usize = 0;
    while i < groups.len()
        invariant
            i <= groups@.len(),
            groups@.map_values(|g: (u16, Vec<u16>)| (g.0, g.1@)) == want,
            models@.len() == i,
            archive_of(*rom, src.build_path@, build),
            archive_of(*rom, src.prop_texset_path@, prop_textures),
            models_planned(models@, want.subrange(0, i as int), build, prop_textures),
        decreases groups@.len() - i,
    {
        let arc = groups[i].0;
        let mut ids: Vec<u16> = Vec::new();
        let mut k: usize = 0;
        while k < groups[i].1.len()
            invariant
                i < groups@.len(),
                k <= groups@[i as int].1@.len(),
                ids@ == groups@[i as int].1@.subrange(0, k as int),
            decreases groups@[i as int].1@.len() - k,
        {
            ids.push(groups[i].1[k]);
            k = k + 1;
        }
        proof {
            assert(ids@ =~= groups@[i as int].1@);
            assert(want[i as int] == (groups@[i as int].0, groups@[i as int].1@));
        }
        let bufs = match (&build, &prop_textures) {
            (Some(b), Some(t)) => model_buffers(b, t, arc, &ids),
            _ => None,
        };
        let ghost m0 = models@;
        models.push((arc, ids, bufs));
        proof {
            assert(models@ == m0.push((arc, ids, bufs)));
            assert forall|j: int| 0 <= j < models@.len() implies {
                &&& (#[trigger] models@[j]).0 == want.subrange(0, i + 1)[j].0
                &&& models@[j].1@ == want.subrange(0, i + 1)[j].1
                &&& match (build, prop_textures) {
                    (Some(b), Some(t)) => match model_files(b.image(), b.entries(), want.subrange(0, i + 1)[j].1) {
                        Some(fs) => models@[j].2 matches Some(v) && v@.map_values(|x: &'a [u8]| x@) == fs + match btx_file(t.image(), t.entries(), want.subrange(0, i + 1)[j].0 as int) {
                            Some(f) => seq![f],
                            None => Seq::<Seq<u8>>::empty(),
                        },
                        None => models@[j].2 is None,
                    },
                    _ => models@[j].2 is None,
                }
            } by {
                if j < i {
                    assert(models@[j] == m0[j]);
                    assert(want.subrange(0, i + 1)[j] == want.subrange(0, i as int)[j]);
                }
            }
        }
        i = i + 1;
    }
    assert(want.subrange(0, want.len() as int) =~= want);
    Some(OverworldPlan { source: src, matrix, chunks, placements, build, prop_textures, models })
}

} // verus!
