//! Pairing the 2D resources of an archive (palettes, character sets, cell
//! banks) and decoding them into named sprite images.
use crate::cell::{assemble_cell, cell_box, cell_fits, cell_fits_exec, cell_pixel, cell_shows_exec};
use crate::cg::{
    decrypt_char_data, decrypted, ncgr_of, ncgr_readable, nclr_of, nclr_readable, parse_ncgr, parse_nclr,
    rahc_block, ttlp_block, CharModel, Ncgr, Nclr, PaletteModel, SpriteCipher,
};
use crate::bytes::le16_exec;
use crate::image::{find_ntr_block, pixel_at, Image};
use crate::narc::{entry_bytes, Narc};
use crate::ncer::{kbec_block, ncer_of, ncer_readable, parse_ncer, CellModel, Ncer};
use crate::sheet::{render_ncgr_sheet, sheet_cols, sheet_fits, sheet_fits_exec, sheet_pixel, sheet_rows};
use crate::signature::{detect_signature, format_of, Signature};
use crate::text::{decimal_padded, push_padded};
use vstd::prelude::*;

verus! {

/// The decoded 2D resources of an archive, each with its sub-file index.
pub struct Resources {
    pub pals: Seq<(int, PaletteModel)>,
    pub chars: Seq<(int, CharModel)>,
    pub banks: Seq<(int, (u32, Seq<CellModel>))>,
}

/// The resources among the first `i` sub-files of `n`; character data is decrypted with `cipher`.
pub open spec fn resources_upto(n: Narc, cipher: SpriteCipher, i: int) -> Resources
    decreases i,
{
    if i <= 0 {
        Resources { pals: seq![], chars: seq![], banks: seq![] }
    } else {
        let r = resources_upto(n, cipher, i - 1);
        let k = i - 1;
        match entry_bytes(n.image(), n.entries(), k) {
            Ok(f) => if format_of(f) == Signature::Nclr && ttlp_block(f) is Some {
                Resources { pals: r.pals.push((k, nclr_of(f))), chars: r.chars, banks: r.banks }
            } else if format_of(f) == Signature::Ncgr && rahc_block(f) is Some {
                let g = ncgr_of(f);
                Resources {
                    pals: r.pals,
                    chars: r.chars.push((k, CharModel {
                        bit_depth: g.bit_depth,
                        scanned: g.scanned,
                        tiles_x: g.tiles_x,
                        tiles_y: g.tiles_y,
                        data: decrypted(g.data, cipher),
                    })),
                    banks: r.banks,
                }
            } else if format_of(f) == Signature::Ncer && kbec_block(f) is Some {
                Resources { pals: r.pals, chars: r.chars, banks: r.banks.push((k, ncer_of(f))) }
            } else {
                r
            },
            Err(_) => r,
        }
    }
}

/// The resources of the whole archive.
pub open spec fn resources(n: Narc, cipher: SpriteCipher) -> Resources {
    resources_upto(n, cipher, n.entries().len() as int)
}

/// Whether every 2D sub-file of `n` can be read by its parser.
pub open spec fn sprites_readable(n: Narc) -> bool {
    forall|k: int| 0 <= k < n.entries().len() ==> (#[trigger] entry_bytes(n.image(), n.entries(), k) matches Ok(f) ==> {
        &&& format_of(f) == Signature::Nclr ==> nclr_readable(f)
        &&& format_of(f) == Signature::Ncgr ==> ncgr_readable(f)
        &&& format_of(f) == Signature::Ncer ==> ncer_readable(f)
    })
}

/// |a - b|.
pub open spec fn dist(a: int, b: int) -> int {
    if a > b { a - b } else { b - a }
}

/// Position (among the first `k`, `k >= 1`) of the first index nearest to `to`.
pub open spec fn nearest_upto(idx: Seq<int>, to: int, k: int) -> int
    decreases k,
{
    if k <= 1 {
        0
    } else {
        let b = nearest_upto(idx, to, k - 1);
        if dist(idx[k - 1], to) < dist(idx[b], to) { k - 1 } else { b }
    }
}

/// Position of the first index nearest to `to`.
pub open spec fn nearest_pos(idx: Seq<int>, to: int) -> int {
    nearest_upto(idx, to, idx.len() as int)
}

/// Position (among the first `k`) of the largest index not above `to` (the last one on ties).
pub open spec fn preceding_upto(idx: Seq<int>, to: int, k: int) -> Option<int>
    decreases k,
{
    if k <= 0 {
        None
    } else {
        let b = preceding_upto(idx, to, k - 1);
        if idx[k - 1] <= to && (b is None || idx[k - 1] >= idx[b->0]) { Some(k - 1) } else { b }
    }
}

/// Position of the preceding index, else of the nearest one.
pub open spec fn preceding_or_nearest_pos(idx: Seq<int>, to: int) -> int {
    match preceding_upto(idx, to, idx.len() as int) {
        Some(p) => p,
        None => nearest_pos(idx, to),
    }
}

/// Position (among the first `k`) of the smallest index not below `to` (the first one on ties).
pub open spec fn following_upto(idx: Seq<int>, to: int, k: int) -> Option<int>
    decreases k,
{
    if k <= 0 {
        None
    } else {
        let b = following_upto(idx, to, k - 1);
        if idx[k - 1] >= to && (b is None || idx[k - 1] < idx[b->0]) { Some(k - 1) } else { b }
    }
}

/// Position of the following index, else of the nearest one.
pub open spec fn following_or_nearest_pos(idx: Seq<int>, to: int) -> int {
    match following_upto(idx, to, idx.len() as int) {
        Some(p) => p,
        None => nearest_pos(idx, to),
    }
}

pub open spec fn pal_idx(r: Resources) -> Seq<int> {
    r.pals.map_values(|p: (int, PaletteModel)| p.0)
}

pub open spec fn char_idx(r: Resources) -> Seq<int> {
    r.chars.map_values(|c: (int, CharModel)| c.0)
}

/// One planned sprite: its name and where it comes from — cell `cell` of bank
/// `bank`, or (for a sheet) the character set alone — with the character set
/// and palette it is drawn with.
pub struct Sprite {
    pub name: Seq<char>,
    pub from_cell: bool,
    pub bank: int,
    pub cell: int,
    pub chars: int,
    pub pal: int,
}

/// `_cell` followed by the cell number, zero-padded to three digits.
pub open spec fn cell_name(ci: int, c: int) -> Seq<char> {
    decimal_padded(ci as nat, 5) + seq!['_', 'c', 'e', 'l', 'l'] + decimal_padded(c as nat, 3)
}

/// The character set a bank is drawn with: the closest one at or before it, else the nearest.
pub open spec fn bank_chars(r: Resources, k: int) -> int {
    preceding_or_nearest_pos(char_idx(r), r.banks[k].0)
}

/// The palette a bank is drawn with: the nearest one.
pub open spec fn bank_pal(r: Resources, k: int) -> int {
    nearest_pos(pal_idx(r), r.banks[k].0)
}

/// Whether cell `c` of bank `k` assembles to a non-empty image.
pub open spec fn cell_shows(r: Resources, k: int, c: int) -> bool {
    let cell = r.banks[k].1.1[c];
    let b = cell_box(cell);
    cell.oams.len() > 0 && b.2 - b.0 > 0 && b.3 - b.1 > 0
}

/// Planned sprites for the first `c` cells of bank `k`.
pub open spec fn cells_plan(r: Resources, k: int, c: int) -> Seq<Sprite>
    decreases c,
{
    if c <= 0 {
        seq![]
    } else {
        cells_plan(r, k, c - 1) + if cell_shows(r, k, c - 1) {
            seq![Sprite {
                name: cell_name(r.banks[k].0, c - 1),
                from_cell: true,
                bank: k,
                cell: c - 1,
                chars: bank_chars(r, k),
                pal: bank_pal(r, k),
            }]
        } else {
            seq![]
        }
    }
}

/// Planned sprites for the first `k` banks.
pub open spec fn banks_plan(r: Resources, k: int) -> Seq<Sprite>
    decreases k,
{
    if k <= 0 { seq![] } else { banks_plan(r, k - 1) + cells_plan(r, k - 1, r.banks[k - 1].1.1.len() as int) }
}

/// First position from `ci` of a character set not before palette `pi`.
pub open spec fn adv_chars(r: Resources, ci: int, pi: int) -> int
    decreases r.chars.len() - ci,
{
    if 0 <= ci < r.chars.len() && (pi >= r.pals.len() || (pi >= 0 && r.chars[ci].0 < r.pals[pi].0)) {
        adv_chars(r, ci + 1, pi)
    } else {
        ci
    }
}

/// First position from `pi` of a palette not before character set `ci`.
pub open spec fn adv_pals(r: Resources, ci: int, pi: int) -> int
    decreases r.pals.len() - pi,
{
    if 0 <= pi < r.pals.len() && (ci >= r.chars.len() || (ci >= 0 && r.pals[pi].0 < r.chars[ci].0)) {
        adv_pals(r, ci, pi + 1)
    } else {
        pi
    }
}

/// The sheet for character set `ci + j` of a pokegra run starting at `ci`,
/// drawn with palette `pi + j % cnt`; all but the run's first palette give
/// shiny variants.
pub open spec fn shiny_sprite(r: Resources, ci: int, pi: int, cnt: int, j: int) -> Sprite {
    Sprite {
        name: decimal_padded(r.chars[ci + j].0 as nat, 5) + if j % cnt != 0 {
            seq!['_', 's', 'h', 'i', 'n', 'y']
        } else {
            Seq::<char>::empty()
        },
        from_cell: false,
        bank: 0,
        cell: 0,
        chars: ci + j,
        pal: pi + j % cnt,
    }
}

/// Pokegra pairing from character set `ci` and palette `pi`: each run of
/// character sets takes the run of palettes after it, cycling through them.
pub open spec fn shiny_plan(r: Resources, ci: int, pi: int) -> Seq<Sprite>
    decreases r.chars.len() - ci + r.pals.len() - pi,
{
    if ci < 0 || pi < 0 || ci >= r.chars.len() || pi > r.pals.len() {
        seq![]
    } else {
        let c2 = adv_chars(r, ci, pi);
        let p2 = adv_pals(r, c2, pi);
        if c2 < ci || p2 < pi || c2 > r.chars.len() || p2 > r.pals.len() || (c2 == ci && p2 == pi) {
            seq![]
        } else {
            let here = if p2 == pi {
                seq![]
            } else {
                Seq::new((c2 - ci) as nat, |j: int| shiny_sprite(r, ci, pi, p2 - pi, j))
            };
            here + shiny_plan(r, c2, p2)
        }
    }
}

/// The sheet for character set `k`, with the closest palette at or after it (else the nearest).
pub open spec fn plain_sprite(r: Resources, k: int) -> Sprite {
    Sprite {
        name: decimal_padded(r.chars[k].0 as nat, 5),
        from_cell: false,
        bank: 0,
        cell: 0,
        chars: k,
        pal: following_or_nearest_pos(pal_idx(r), r.chars[k].0),
    }
}

/// One plain sheet per character set.
pub open spec fn plain_plan(r: Resources) -> Seq<Sprite> {
    Seq::new(r.chars.len(), |k: int| plain_sprite(r, k))
}

/// The sprites an archive yields: assembled cells when there are any to show
/// (unless raw), else pokegra pairs for enciphered sprites, else one sheet per
/// character set.
pub open spec fn sprite_plan(r: Resources, raw: bool, cipher: SpriteCipher) -> Seq<Sprite> {
    if r.pals.len() == 0 || r.chars.len() == 0 {
        seq![]
    } else if cells_chosen(r, raw) {
        banks_plan(r, r.banks.len() as int)
    } else if cipher != SpriteCipher::Unencrypted && !raw {
        shiny_plan(r, 0, 0)
    } else {
        plain_plan(r)
    }
}

/// Whether the assembled cells are what the archive yields.
pub open spec fn cells_chosen(r: Resources, raw: bool) -> bool {
    !raw && r.banks.len() > 0 && banks_plan(r, r.banks.len() as int).len() > 0
}

/// Whether `img` is the picture sprite `s` describes.
pub open spec fn shows_sprite(img: Image, s: Sprite, r: Resources) -> bool {
    let g = r.chars[s.chars].1;
    let pal = r.pals[s.pal].1;
    &&& img.wf()
    &&& if s.from_cell {
        let (mt, cells) = r.banks[s.bank].1;
        let cell = cells[s.cell];
        let b = cell_box(cell);
        &&& img.width == b.2 - b.0
        &&& img.height == b.3 - b.1
        &&& forall|x: int, y: int| 0 <= x < img.width && 0 <= y < img.height ==>
            #[trigger] pixel_at(img.data@, img.width as int, x, y) == cell_pixel(cell, g, pal, mt, cell.oams.len() as int, x, y)
    } else {
        &&& img.width == sheet_cols(g) * 8
        &&& img.height == sheet_rows(g) * 8
        &&& forall|x: int, y: int| 0 <= x < img.width && 0 <= y < img.height ==>
            #[trigger] pixel_at(img.data@, img.width as int, x, y) == sheet_pixel(g, pal, 0, true, x, y)
    }
}

/// Whether `out` holds exactly the planned sprites, in order.
pub open spec fn sprites_match(out: Seq<(String, Image)>, plan: Seq<Sprite>, r: Resources) -> bool {
    &&& out.len() == plan.len()
    &&& forall|i: int| 0 <= i < out.len() ==> (#[trigger] out[i]).0@ == plan[i].name && shows_sprite(out[i].1, plan[i], r)
}

/// Whether every sheet of `plan` can be rendered without arithmetic overflow.
pub open spec fn sheets_fit(r: Resources, plan: Seq<Sprite>) -> bool {
    forall|i: int| 0 <= i < plan.len() ==> {
        let s = #[trigger] plan[i];
        sheet_fits(r.chars[s.chars].1, r.pals[s.pal].1, 0)
    }
}

/// Whether the machine can decode the sprites (no arithmetic overflow): every
/// cell that is assembled, and every sheet that is rendered.
pub open spec fn sprites_fit(r: Resources, raw: bool, cipher: SpriteCipher) -> bool {
    r.pals.len() > 0 && r.chars.len() > 0 ==> {
        &&& (!raw && r.banks.len() > 0) ==> forall|k: int, c: int| 0 <= k < r.banks.len() && 0 <= c < r.banks[k].1.1.len() ==>
            cell_fits(#[trigger] r.banks[k].1.1[c], r.chars[bank_chars(r, k)].1, r.pals[bank_pal(r, k)].1, r.banks[k].1.0)
        &&& !cells_chosen(r, raw) ==> sheets_fit(r, sprite_plan(r, raw, cipher))
    }
}

proof fn lemma_match_concat(a: Seq<(String, Image)>, b: Seq<(String, Image)>, x: Seq<Sprite>, y: Seq<Sprite>, r: Resources)
    requires
        sprites_match(a, x, r),
        sprites_match(b, y, r),
    ensures
        sprites_match(a + b, x + y, r),
{
    assert forall|i: int| 0 <= i < (a + b).len() implies (#[trigger] (a + b)[i]).0@ == (x + y)[i].name
        && shows_sprite((a + b)[i].1, (x + y)[i], r) by {
        if i >= a.len() {
            assert((a + b)[i] == b[i - a.len()]);
        }
    }
}

/// Shape facts of the resource lists: indices increase, stay below `i`, and
/// no sub-file is both a palette and a character set.
proof fn lemma_resources_shape(n: Narc, cipher: SpriteCipher, i: int)
    requires
        0 <= i,
    ensures
        ({
            let r = resources_upto(n, cipher, i);
            &&& forall|a: int, b: int| 0 <= a < b < r.pals.len() ==> r.pals[a].0 < r.pals[b].0
            &&& forall|a: int, b: int| 0 <= a < b < r.chars.len() ==> r.chars[a].0 < r.chars[b].0
            &&& forall|a: int| 0 <= a < r.pals.len() ==> 0 <= #[trigger] r.pals[a].0 < i
            &&& forall|a: int| 0 <= a < r.chars.len() ==> 0 <= #[trigger] r.chars[a].0 < i
            &&& forall|a: int, b: int| 0 <= a < r.pals.len() && 0 <= b < r.chars.len() ==> r.pals[a].0 != r.chars[b].0
        }),
    decreases i,
{
    if i > 0 {
        lemma_resources_shape(n, cipher, i - 1);
        let r0 = resources_upto(n, cipher, i - 1);
        let r = resources_upto(n, cipher, i);
        let k = i - 1;
        match entry_bytes(n.image(), n.entries(), k) {
            Ok(f) => {
                if format_of(f) == Signature::Nclr && ttlp_block(f) is Some {
                    assert(r.chars == r0.chars);
                    assert(r.pals == r0.pals.push((k, nclr_of(f))));
                    assert forall|a: int| 0 <= a < r.pals.len() implies 0 <= #[trigger] r.pals[a].0 < i by {
                        if a < r0.pals.len() {
                            assert(r.pals[a] == r0.pals[a]);
                        }
                    }
                    assert forall|a: int, b: int| 0 <= a < b < r.pals.len() implies r.pals[a].0 < r.pals[b].0 by {
                        assert(r.pals[a] == r0.pals[a]);
                        if b < r0.pals.len() {
                            assert(r.pals[b] == r0.pals[b]);
                        }
                    }
                    assert forall|a: int, b: int| 0 <= a < r.pals.len() && 0 <= b < r.chars.len() implies r.pals[a].0 != r.chars[b].0 by {
                        assert(0 <= r0.chars[b].0 < k);
                        if a < r0.pals.len() {
                            assert(r.pals[a] == r0.pals[a]);
                        }
                    }
                } else if format_of(f) == Signature::Ncgr && rahc_block(f) is Some {
                    assert(r.pals == r0.pals);
                    assert(r.chars.len() == r0.chars.len() + 1);
                    assert(r.chars[r0.chars.len() as int].0 == k);
                    assert forall|a: int| 0 <= a < r0.chars.len() implies r.chars[a] == r0.chars[a] by {}
                    assert forall|a: int| 0 <= a < r.chars.len() implies 0 <= #[trigger] r.chars[a].0 < i by {
                        if a < r0.chars.len() {
                            assert(r.chars[a] == r0.chars[a]);
                        }
                    }
                    assert forall|a: int, b: int| 0 <= a < b < r.chars.len() implies r.chars[a].0 < r.chars[b].0 by {
                        assert(r.chars[a] == r0.chars[a]);
                        if b < r0.chars.len() {
                            assert(r.chars[b] == r0.chars[b]);
                        }
                    }
                    assert forall|a: int, b: int| 0 <= a < r.pals.len() && 0 <= b < r.chars.len() implies r.pals[a].0 != r.chars[b].0 by {
                        assert(0 <= r0.pals[a].0 < k);
                        if b < r0.chars.len() {
                            assert(r.chars[b] == r0.chars[b]);
                        }
                    }
                } else if format_of(f) == Signature::Ncer && kbec_block(f) is Some {
                    assert(r.pals == r0.pals);
                    assert(r.chars == r0.chars);
                } else {
                    assert(r == r0);
                }
            },
            Err(_) => {
                assert(r == r0);
            },
        }
    }
}

/// Decodes resource lists from the archive's sub-files.
fn gather(narc: &Narc, cipher: SpriteCipher) -> (r: (Vec<(usize, Nclr)>, Vec<(usize, Ncgr)>, Vec<(usize, Ncer)>))
    requires
        sprites_readable(*narc),
    ensures
        r.0@.map_values(|p: (usize, Nclr)| (p.0 as int, p.1@)) == resources(*narc, cipher).pals,
        r.1@.map_values(|c: (usize, Ncgr)| (c.0 as int, c.1@)) == resources(*narc, cipher).chars,
        r.2@.map_values(|b: (usize, Ncer)| (b.0 as int, b.1@)) == resources(*narc, cipher).banks,
{
    let mut pals: Vec<(usize, Nclr)> = Vec::new();
    let mut chars: Vec<(usize, Ncgr)> = Vec::new();
    let mut cells: Vec<(usize, Ncer)> = Vec::new();
    let n = narc.file_count();
    let mut i: usize = 0;
    while i < n
        invariant
            n == narc.entries().len(),
            sprites_readable(*narc),
            i <= n,
            pals@.map_values(|p: (usize, Nclr)| (p.0 as int, p.1@)) == resources_upto(*narc, cipher, i as int).pals,
            chars@.map_values(|c: (usize, Ncgr)| (c.0 as int, c.1@)) == resources_upto(*narc, cipher, i as int).chars,
            cells@.map_values(|b: (usize, Ncer)| (b.0 as int, b.1@)) == resources_upto(*narc, cipher, i as int).banks,
        decreases n - i,
    {
        if let Ok(f) = narc.file(i) {
            assert(entry_bytes(narc.image(), narc.entries(), i as int) matches Ok(_));
            let sig = detect_signature(f);
            if sig == Signature::Nclr {
                if let Ok(p) = parse_nclr(f) {
                    pals.push((i, p));
                }
            } else if sig == Signature::Ncgr {
                if let Ok(mut g) = parse_ncgr(f) {
                    decrypt_char_data(g.char_data.as_mut_slice(), cipher);
                    chars.push((i, g));
                }
            } else if sig == Signature::Ncer {
                if let Ok(c) = parse_ncer(f) {
                    cells.push((i, c));
                }
            }
        }
        proof {
            assert(pals@.map_values(|p: (usize, Nclr)| (p.0 as int, p.1@)) =~= resources_upto(*narc, cipher, i + 1).pals);
            assert(chars@.map_values(|c: (usize, Ncgr)| (c.0 as int, c.1@)) =~= resources_upto(*narc, cipher, i + 1).chars);
            assert(cells@.map_values(|b: (usize, Ncer)| (b.0 as int, b.1@)) =~= resources_upto(*narc, cipher, i + 1).banks);
        }
        i = i + 1;
    }
    (pals, chars, cells)
}


spec fn ixs(s: Seq<usize>) -> Seq<int> {
    s.map_values(|i: usize| i as int)
}

spec fn opt_int(p: Option<usize>) -> Option<int> {
    match p {
        Some(q) => Some(q as int),
        None => None,
    }
}

/// The resources held by the decoded lists.
spec fn res_of(pals: Seq<(usize, Nclr)>, chars: Seq<(usize, Ncgr)>, cells: Seq<(usize, Ncer)>) -> Resources {
    Resources {
        pals: pals.map_values(|p: (usize, Nclr)| (p.0 as int, p.1@)),
        chars: chars.map_values(|c: (usize, Ncgr)| (c.0 as int, c.1@)),
        banks: cells.map_values(|b: (usize, Ncer)| (b.0 as int, b.1@)),
    }
}

fn gap(a: usize, b: usize) -> (d: usize)
    ensures
        d == dist(a as int, b as int),
{
    if a > b { a - b } else { b - a }
}

/// The sub-file indices of a resource list.
fn indices<T>(items: &Vec<(usize, T)>) -> (v: Vec<usize>)
    ensures
        v.len() == items.len(),
        forall|j: int| 0 <= j < v.len() ==> v[j] == items[j].0,
{
    let mut v: Vec<usize> = Vec::new();
    let mut j: usize = 0;
    while j < items.len()
        invariant
            j <= items.len(),
            v.len() == j,
            forall|i: int| 0 <= i < j ==> v[i] == items[i].0,
        decreases items.len() - j,
    {
        v.push(items[j].0);
        j = j + 1;
    }
    v
}

/// Position of the first index nearest to `to` (none when there are no indices).
fn nearest(idx: &Vec<usize>, to: usize) -> (p: Option<usize>)
    ensures
        match p {
            Some(q) => q < idx.len() && q as int == nearest_pos(ixs(idx@), to as int),
            None => idx.len() == 0,
        },
{
    if idx.len() == 0 {
        return None;
    }
    let mut best: usize = 0;
    let mut k: usize = 1;
    while k < idx.len()
        invariant
            1 <= k <= idx.len(),
            best < k,
            best as int == nearest_upto(ixs(idx@), to as int, k as int),
        decreases idx.len() - k,
    {
        if gap(idx[k], to) < gap(idx[best], to) {
            best = k;
        }
        k = k + 1;
    }
    Some(best)
}

/// Position of the largest index not above `to` (the last one on ties).
fn preceding(idx: &Vec<usize>, to: usize) -> (p: Option<usize>)
    ensures
        opt_int(p) == preceding_upto(ixs(idx@), to as int, idx.len() as int),
        p matches Some(q) ==> q < idx.len(),
{
    let mut best: Option<usize> = None;
    let mut k: usize = 0;
    while k < idx.len()
        invariant
            k <= idx.len(),
            opt_int(best) == preceding_upto(ixs(idx@), to as int, k as int),
            best matches Some(q) ==> q < k,
        decreases idx.len() - k,
    {
        let take = match best {
            None => idx[k] <= to,
            Some(b) => idx[k] <= to && idx[k] >= idx[b],
        };
        if take {
            best = Some(k);
        }
        k = k + 1;
    }
    best
}

/// Position of the smallest index not below `to` (the first one on ties).
fn following(idx: &Vec<usize>, to: usize) -> (p: Option<usize>)
    ensures
        opt_int(p) == following_upto(ixs(idx@), to as int, idx.len() as int),
        p matches Some(q) ==> q < idx.len(),
{
    let mut best: Option<usize> = None;
    let mut k: usize = 0;
    while k < idx.len()
        invariant
            k <= idx.len(),
            opt_int(best) == following_upto(ixs(idx@), to as int, k as int),
            best matches Some(q) ==> q < k,
        decreases idx.len() - k,
    {
        let take = match best {
            None => idx[k] >= to,
            Some(b) => idx[k] >= to && idx[k] < idx[b],
        };
        if take {
            best = Some(k);
        }
        k = k + 1;
    }
    best
}

/// Position of the largest index not above `to`, else of the nearest one
/// (none when there are no indices).
fn preceding_or_nearest(idx: &Vec<usize>, to: usize) -> (p: Option<usize>)
    ensures
        match p {
            Some(q) => q < idx.len() && q as int == preceding_or_nearest_pos(ixs(idx@), to as int),
            None => idx.len() == 0,
        },
{
    match preceding(idx, to) {
        Some(q) => Some(q),
        None => nearest(idx, to),
    }
}

/// Position of the smallest index not below `to`, else of the nearest one
/// (none when there are no indices).
fn following_or_nearest(idx: &Vec<usize>, to: usize) -> (p: Option<usize>)
    ensures
        match p {
            Some(q) => q < idx.len() && q as int == following_or_nearest_pos(ixs(idx@), to as int),
            None => idx.len() == 0,
        },
{
    match following(idx, to) {
        Some(q) => Some(q),
        None => nearest(idx, to),
    }
}

proof fn lemma_match_one(name: String, img: Image, s: Sprite, r: Resources)
    requires
        name@ == s.name,
        shows_sprite(img, s, r),
    ensures
        sprites_match(seq![(name, img)], seq![s], r),
{
}

/// Assembles every cell of every bank that shows something.
fn assemble_banks(
    pals: &Vec<(usize, Nclr)>,
    chars: &Vec<(usize, Ncgr)>,
    cells: &Vec<(usize, Ncer)>,
    pal_ix: &Vec<usize>,
    char_ix: &Vec<usize>,
) -> (out: Vec<(String, Image)>)
    requires
        pals.len() > 0,
        chars.len() > 0,
        ixs(pal_ix@) == pal_idx(res_of(pals@, chars@, cells@)),
        ixs(char_ix@) == char_idx(res_of(pals@, chars@, cells@)),
        ({
            let r = res_of(pals@, chars@, cells@);
            forall|k: int, c: int| 0 <= k < r.banks.len() && 0 <= c < r.banks[k].1.1.len() ==>
                cell_fits(#[trigger] r.banks[k].1.1[c], r.chars[bank_chars(r, k)].1, r.pals[bank_pal(r, k)].1, r.banks[k].1.0)
        }),
    ensures
        sprites_match(out@, banks_plan(res_of(pals@, chars@, cells@), cells.len() as int), res_of(pals@, chars@, cells@)),
{
    let ghost r = res_of(pals@, chars@, cells@);
    let mut out: Vec<(String, Image)> = Vec::new();
    let mut k: usize = 0;
    while k < cells.len()
        invariant
            r == res_of(pals@, chars@, cells@),
            k <= cells.len(),
            pals.len() > 0,
            chars.len() > 0,
            ixs(pal_ix@) == pal_idx(r),
            ixs(char_ix@) == char_idx(r),
            forall|k: int, c: int| 0 <= k < r.banks.len() && 0 <= c < r.banks[k].1.1.len() ==>
                cell_fits(#[trigger] r.banks[k].1.1[c], r.chars[bank_chars(r, k)].1, r.pals[bank_pal(r, k)].1, r.banks[k].1.0),
            sprites_match(out@, banks_plan(r, k as int), r),
        decreases cells.len() - k,
    {
        let ci = cells[k].0;
        assert(pal_ix@.len() == pals.len() && char_ix@.len() == chars.len()) by {
            assert(ixs(pal_ix@).len() == pal_idx(r).len());
            assert(ixs(char_ix@).len() == char_idx(r).len());
        }
        let gi = preceding_or_nearest(char_ix, ci).unwrap();
        let pi = nearest(pal_ix, ci).unwrap();
        let bank = &cells[k].1;
        assert(r.banks[k as int] == (ci as int, bank@));
        assert(gi as int == bank_chars(r, k as int));
        assert(pi as int == bank_pal(r, k as int));
        assert(r.chars[gi as int].1 == chars[gi as int].1@);
        assert(r.pals[pi as int].1 == pals[pi as int].1@);
        let ghost before = out@;
        let mut c: usize = 0;
        while c < bank.cells.len()
            invariant
                r == res_of(pals@, chars@, cells@),
                k < cells.len(),
                bank == &cells[k as int].1,
                r.banks[k as int] == (ci as int, bank@),
                gi < chars.len(),
                pi < pals.len(),
                gi as int == bank_chars(r, k as int),
                pi as int == bank_pal(r, k as int),
                r.chars[gi as int].1 == chars[gi as int].1@,
                r.pals[pi as int].1 == pals[pi as int].1@,
                c <= bank.cells.len(),
                forall|k: int, c: int| 0 <= k < r.banks.len() && 0 <= c < r.banks[k].1.1.len() ==>
                    cell_fits(#[trigger] r.banks[k].1.1[c], r.chars[bank_chars(r, k)].1, r.pals[bank_pal(r, k)].1, r.banks[k].1.0),
                sprites_match(before, banks_plan(r, k as int), r),
                sprites_match(out@, banks_plan(r, k as int) + cells_plan(r, k as int, c as int), r),
            decreases bank.cells.len() - c,
        {
            assert(r.banks[k as int].1.1[c as int] == bank.cells[c as int]@);
            let img = assemble_cell(&bank.cells[c], &chars[gi].1, &pals[pi].1, bank.mapping_type);
            let ghost plan0 = banks_plan(r, k as int) + cells_plan(r, k as int, c as int);
            if !img.is_empty() {
                let mut name = String::new();
                push_padded(&mut name, ci as u64, 5);
                name.push('_');
                name.push('c');
                name.push('e');
                name.push('l');
                name.push('l');
                push_padded(&mut name, c as u64, 3);
                let ghost s = Sprite {
                    name: cell_name(ci as int, c as int),
                    from_cell: true,
                    bank: k as int,
                    cell: c as int,
                    chars: gi as int,
                    pal: pi as int,
                };
                proof {
                    assert(name@ =~= cell_name(ci as int, c as int));
                    assert(cell_shows(r, k as int, c as int));
                    lemma_match_one(name, img, s, r);
                    lemma_match_concat(out@, seq![(name, img)], plan0, seq![s], r);
                    assert(plan0 + seq![s] =~= banks_plan(r, k as int) + cells_plan(r, k as int, c + 1));
                    assert(out@ + seq![(name, img)] =~= out@.push((name, img)));
                }
                out.push((name, img));
            } else {
                proof {
                    assert(!cell_shows(r, k as int, c as int));
                    assert(plan0 =~= banks_plan(r, k as int) + cells_plan(r, k as int, c + 1));
                }
            }
            c = c + 1;
        }
        proof {
            assert(banks_plan(r, k as int) + cells_plan(r, k as int, bank.cells.len() as int) =~= banks_plan(r, k + 1));
        }
        k = k + 1;
    }
    out
}


/// The sheet index facts the pokegra pairing relies on: no sub-file is both a
/// palette and a character set.
spec fn apart(r: Resources) -> bool {
    forall|a: int, b: int| 0 <= a < r.pals.len() && 0 <= b < r.chars.len() ==> r.pals[a].0 != r.chars[b].0
}

/// Renders the pokegra pairs: each run of character sets with the run of
/// palettes after it.
fn shiny_sheets(
    pals: &Vec<(usize, Nclr)>,
    chars: &Vec<(usize, Ncgr)>,
    cells: &Vec<(usize, Ncer)>,
) -> (out: Vec<(String, Image)>)
    requires
        apart(res_of(pals@, chars@, cells@)),
        sheets_fit(res_of(pals@, chars@, cells@), shiny_plan(res_of(pals@, chars@, cells@), 0, 0)),
    ensures
        sprites_match(out@, shiny_plan(res_of(pals@, chars@, cells@), 0, 0), res_of(pals@, chars@, cells@)),
{
    let ghost r = res_of(pals@, chars@, cells@);
    let ghost full = shiny_plan(r, 0, 0);
    let mut out: Vec<(String, Image)> = Vec::new();
    let ghost mut done: Seq<Sprite> = seq![];
    let mut ci: usize = 0;
    let mut pi: usize = 0;
    while ci < chars.len()
        invariant
            r == res_of(pals@, chars@, cells@),
            full == shiny_plan(r, 0, 0),
            apart(r),
            sheets_fit(r, full),
            ci <= chars.len(),
            pi <= pals.len(),
            done + shiny_plan(r, ci as int, pi as int) == full,
            sprites_match(out@, done, r),
        decreases chars.len() - ci + pals.len() - pi,
    {
        let gs = ci;
        let ps = pi;
        while ci < chars.len() && (pi >= pals.len() || chars[ci].0 < pals[pi].0)
            invariant
                r == res_of(pals@, chars@, cells@),
                gs <= ci <= chars.len(),
                pi == ps,
                pi <= pals.len(),
                adv_chars(r, ci as int, pi as int) == adv_chars(r, gs as int, pi as int),
            decreases chars.len() - ci,
        {
            ci = ci + 1;
        }
        assert(adv_chars(r, ci as int, ps as int) == ci as int);
        while pi < pals.len() && (ci >= chars.len() || pals[pi].0 < chars[ci].0)
            invariant
                r == res_of(pals@, chars@, cells@),
                ps <= pi <= pals.len(),
                ci <= chars.len(),
                adv_pals(r, ci as int, pi as int) == adv_pals(r, ci as int, ps as int),
            decreases pals.len() - pi,
        {
            pi = pi + 1;
        }
        assert(adv_pals(r, ci as int, pi as int) == pi as int);
        proof {
            if ci == gs {
                assert(ps < pals.len());
                assert(r.pals[ps as int].0 != r.chars[gs as int].0);
                assert(pi > ps);
            }
        }
        let ghost here = if pi == ps {
            Seq::<Sprite>::empty()
        } else {
            Seq::new((ci - gs) as nat, |j: int| shiny_sprite(r, gs as int, ps as int, (pi - ps) as int, j))
        };
        assert(shiny_plan(r, gs as int, ps as int) == here + shiny_plan(r, ci as int, pi as int));
        let pal_count = pi - ps;
        if pal_count > 0 {
            let mut g: usize = gs;
            while g < ci
                invariant
                    r == res_of(pals@, chars@, cells@),
                    full == shiny_plan(r, 0, 0),
                    sheets_fit(r, full),
                    gs <= g <= ci <= chars.len(),
                    ps < pi <= pals.len(),
                    pal_count == pi - ps,
                    here == Seq::new((ci - gs) as nat, |j: int| shiny_sprite(r, gs as int, ps as int, (pi - ps) as int, j)),
                    done + here + shiny_plan(r, ci as int, pi as int) == full,
                    sprites_match(out@, done + here.subrange(0, g - gs), r),
                decreases ci - g,
            {
                let slot = (g - gs) % pal_count;
                let ghost j = g - gs;
                let ghost sp = shiny_sprite(r, gs as int, ps as int, (pi - ps) as int, j as int);
                let mut name = String::new();
                push_padded(&mut name, chars[g].0 as u64, 5);
                if slot != 0 {
                    name.push('_');
                    name.push('s');
                    name.push('h');
                    name.push('i');
                    name.push('n');
                    name.push('y');
                }
                proof {
                    assert(here[j as int] == sp);
                    assert(full[done.len() + j] == sp) by {
                        assert(full == (done + here) + shiny_plan(r, ci as int, pi as int));
                        assert((done + here)[done.len() + j] == here[j as int]);
                    }
                    assert(sheet_fits(r.chars[sp.chars].1, r.pals[sp.pal].1, 0));
                    assert(r.chars[g as int].1 == chars[g as int].1@);
                    assert(r.pals[ps + slot].1 == pals[ps + slot].1@);
                }
                let img = render_ncgr_sheet(&chars[g].1, &pals[ps + slot].1, 0, true);
                proof {
                    assert(name@ =~= sp.name);
                    lemma_match_one(name, img, sp, r);
                    lemma_match_concat(out@, seq![(name, img)], done + here.subrange(0, j as int), seq![sp], r);
                    assert((done + here.subrange(0, j as int)) + seq![sp] =~= done + here.subrange(0, j + 1));
                    assert(out@ + seq![(name, img)] =~= out@.push((name, img)));
                }
                out.push((name, img));
                g = g + 1;
            }
            proof {
                assert(here.subrange(0, (ci - gs) as int) =~= here);
            }
        }
        proof {
            if pal_count == 0 {
                assert(here =~= Seq::<Sprite>::empty());
                assert(done + here =~= done);
            }
            done = done + here;
        }
    }
    proof {
        assert(shiny_plan(r, ci as int, pi as int) =~= Seq::<Sprite>::empty());
        assert(done + shiny_plan(r, ci as int, pi as int) =~= done);
    }
    out
}

/// Renders one sheet per character set, each with its following palette.
fn plain_sheets(
    pals: &Vec<(usize, Nclr)>,
    chars: &Vec<(usize, Ncgr)>,
    cells: &Vec<(usize, Ncer)>,
    pal_ix: &Vec<usize>,
) -> (out: Vec<(String, Image)>)
    requires
        pals.len() > 0,
        ixs(pal_ix@) == pal_idx(res_of(pals@, chars@, cells@)),
        sheets_fit(res_of(pals@, chars@, cells@), plain_plan(res_of(pals@, chars@, cells@))),
    ensures
        sprites_match(out@, plain_plan(res_of(pals@, chars@, cells@)), res_of(pals@, chars@, cells@)),
{
    let ghost r = res_of(pals@, chars@, cells@);
    let ghost full = plain_plan(r);
    assert(pal_ix@.len() == pals.len()) by {
        assert(ixs(pal_ix@).len() == pal_idx(r).len());
    }
    let mut out: Vec<(String, Image)> = Vec::new();
    let mut k: usize = 0;
    while k < chars.len()
        invariant
            r == res_of(pals@, chars@, cells@),
            full == plain_plan(r),
            pals.len() > 0,
            pal_ix@.len() == pals.len(),
            ixs(pal_ix@) == pal_idx(r),
            sheets_fit(r, full),
            k <= chars.len(),
            sprites_match(out@, full.subrange(0, k as int), r),
        decreases chars.len() - k,
    {
        let idx = chars[k].0;
        let pi = following_or_nearest(pal_ix, idx).unwrap();
        let ghost sp = plain_sprite(r, k as int);
        let mut name = String::new();
        push_padded(&mut name, idx as u64, 5);
        proof {
            assert(full[k as int] == sp);
            assert(sp.pal == pi as int);
            assert(r.chars[k as int].1 == chars[k as int].1@);
            assert(r.pals[pi as int].1 == pals[pi as int].1@);
        }
        let img = render_ncgr_sheet(&chars[k].1, &pals[pi].1, 0, true);
        proof {
            assert(name@ =~= sp.name);
            lemma_match_one(name, img, sp, r);
            lemma_match_concat(out@, seq![(name, img)], full.subrange(0, k as int), seq![sp], r);
            assert(full.subrange(0, k as int) + seq![sp] =~= full.subrange(0, k + 1));
            assert(out@ + seq![(name, img)] =~= out@.push((name, img)));
        }
        out.push((name, img));
        k = k + 1;
    }
    proof {
        assert(full.subrange(0, chars.len() as int) =~= full);
    }
    out
}

/// Decodes the 2D sprites of an archive into named images: each cell bank's
/// cells assembled (unless `raw`), else the pokegra pairs of enciphered
/// sprites, else one sheet per character set.
pub fn collect_sprites(narc: &Narc, raw: bool, cipher: SpriteCipher) -> (out: Vec<(String, Image)>)
    requires
        sprites_readable(*narc),
        sprites_fit(resources(*narc, cipher), raw, cipher),
    ensures
        sprites_match(out@, sprite_plan(resources(*narc, cipher), raw, cipher), resources(*narc, cipher)),
{
    let (pals, chars, cells) = gather(narc, cipher);
    let ghost r = resources(*narc, cipher);
    proof {
        lemma_resources_shape(*narc, cipher, narc.entries().len() as int);
        assert(res_of(pals@, chars@, cells@) == r);
    }
    if pals.len() == 0 || chars.len() == 0 {
        return Vec::new();
    }
    let pal_ix = indices(&pals);
    let char_ix = indices(&chars);
    proof {
        assert(ixs(pal_ix@) =~= pal_idx(r));
        assert(ixs(char_ix@) =~= char_idx(r));
    }
    if !raw && cells.len() > 0 {
        let images = assemble_banks(&pals, &chars, &cells, &pal_ix, &char_ix);
        if images.len() > 0 {
            return images;
        }
    }
    let enciphered = match cipher {
        SpriteCipher::Unencrypted => false,
        _ => true,
    };
    if enciphered && !raw {
        return shiny_sheets(&pals, &chars, &cells);
    }
    plain_sheets(&pals, &chars, &cells, &pal_ix)
}


proof fn lemma_resources_upto_same(n: Narc, m: Narc, cipher: SpriteCipher, i: int)
    requires
        n.image() == m.image(),
        n.entries() == m.entries(),
    ensures
        resources_upto(n, cipher, i) == resources_upto(m, cipher, i),
    decreases i,
{
    if i > 0 {
        lemma_resources_upto_same(n, m, cipher, i - 1);
    }
}

/// The resources of an archive depend only on its image and entries.
pub proof fn lemma_resources_same(n: Narc, m: Narc, cipher: SpriteCipher)
    requires
        n.image() == m.image(),
        n.entries() == m.entries(),
    ensures
        resources(n, cipher) == resources(m, cipher),
{
    lemma_resources_upto_same(n, m, cipher, n.entries().len() as int);
}


/// Whether a 2D sub-file can be read by its parser.
fn file_readable(f: &[u8]) -> (b: bool)
    ensures
        b == ({
            &&& format_of(f@) == Signature::Nclr ==> nclr_readable(f@)
            &&& format_of(f@) == Signature::Ncgr ==> ncgr_readable(f@)
            &&& format_of(f@) == Signature::Ncer ==> ncer_readable(f@)
        }),
{
    let sig = detect_signature(f);
    if sig == Signature::Nclr {
        match find_ntr_block(f, 84, 84, 76, 80) {
            Some(b) => b.len() >= 0x14,
            None => true,
        }
    } else if sig == Signature::Ncgr {
        match find_ntr_block(f, 82, 65, 72, 67) {
            Some(b) => b.len() >= 0x20,
            None => true,
        }
    } else if sig == Signature::Ncer {
        match find_ntr_block(f, 75, 66, 69, 67) {
            Some(b) => {
                if b.len() < 0x11 {
                    false
                } else {
                    let count = le16_exec(b, 0x08) as usize;
                    let extended = b[0x0A] == 1;
                    let cs: usize = if extended { 16 } else { 8 };
                    let last: usize = if extended { 16 } else { 2 };
                    count == 0 || 0x20 + (count - 1) * cs + last <= b.len()
                }
            },
            None => true,
        }
    } else {
        true
    }
}

/// Whether every 2D sub-file of the archive can be read by its parser (what
/// `collect_sprites` asks of its archive).
pub fn sprite_files_readable(narc: &Narc) -> (b: bool)
    ensures
        b == sprites_readable(*narc),
{
    let n = narc.file_count();
    let mut i: usize = 0;
    while i < n
        invariant
            n == narc.entries().len(),
            i <= n,
            forall|k: int| 0 <= k < i ==> (#[trigger] entry_bytes(narc.image(), narc.entries(), k) matches Ok(f) ==> {
                &&& format_of(f) == Signature::Nclr ==> nclr_readable(f)
                &&& format_of(f) == Signature::Ncgr ==> ncgr_readable(f)
                &&& format_of(f) == Signature::Ncer ==> ncer_readable(f)
            }),
        decreases n - i,
    {
        if let Ok(f) = narc.file(i) {
            if !file_readable(f) {
                assert(!(entry_bytes(narc.image(), narc.entries(), i as int) matches Ok(f) ==> {
                    &&& format_of(f) == Signature::Nclr ==> nclr_readable(f)
                    &&& format_of(f) == Signature::Ncgr ==> ncgr_readable(f)
                    &&& format_of(f) == Signature::Ncer ==> ncer_readable(f)
                }));
                return false;
            }
        }
        i = i + 1;
    }
    true
}


/// Whether some of the first `c` cells of bank `k` shows something.
pub open spec fn shows_in(r: Resources, k: int, c: int) -> bool {
    exists|i: int| 0 <= i < c && #[trigger] cell_shows(r, k, i)
}

/// Whether a cell of one of the first `k` banks shows something.
pub open spec fn banks_show(r: Resources, k: int) -> bool {
    exists|j: int| 0 <= j < k && #[trigger] shows_in(r, j, r.banks[j].1.1.len() as int)
}

proof fn lemma_cells_plan_len(r: Resources, k: int, c: int)
    requires
        0 <= c,
    ensures
        cells_plan(r, k, c).len() > 0 <==> shows_in(r, k, c),
    decreases c,
{
    if c > 0 {
        lemma_cells_plan_len(r, k, c - 1);
        if shows_in(r, k, c - 1) {
            let i = choose|i: int| 0 <= i < c - 1 && #[trigger] cell_shows(r, k, i);
            assert(0 <= i < c && cell_shows(r, k, i));
        }
        if cell_shows(r, k, c - 1) {
            assert(0 <= c - 1 < c && cell_shows(r, k, c - 1));
        }
        if shows_in(r, k, c) && !cell_shows(r, k, c - 1) {
            let i = choose|i: int| 0 <= i < c && #[trigger] cell_shows(r, k, i);
            assert(i < c - 1);
        }
    }
}

proof fn lemma_banks_plan_len(r: Resources, k: int)
    requires
        0 <= k <= r.banks.len(),
    ensures
        banks_plan(r, k).len() > 0 <==> banks_show(r, k),
    decreases k,
{
    if k > 0 {
        lemma_banks_plan_len(r, k - 1);
        lemma_cells_plan_len(r, k - 1, r.banks[k - 1].1.1.len() as int);
        if banks_show(r, k - 1) {
            let j = choose|j: int| 0 <= j < k - 1 && #[trigger] shows_in(r, j, r.banks[j].1.1.len() as int);
            assert(0 <= j < k && shows_in(r, j, r.banks[j].1.1.len() as int));
        }
        if shows_in(r, k - 1, r.banks[k - 1].1.1.len() as int) {
            assert(0 <= k - 1 < k && shows_in(r, k - 1, r.banks[k - 1].1.1.len() as int));
        }
        if banks_show(r, k) && !shows_in(r, k - 1, r.banks[k - 1].1.1.len() as int) {
            let j = choose|j: int| 0 <= j < k && #[trigger] shows_in(r, j, r.banks[j].1.1.len() as int);
            assert(j < k - 1);
        }
    }
}

proof fn lemma_sheets_fit_one(r: Resources, sp: Sprite)
    ensures
        sheets_fit(r, seq![sp]) == sheet_fits(r.chars[sp.chars].1, r.pals[sp.pal].1, 0),
{
    assert(seq![sp][0] == sp);
    if sheet_fits(r.chars[sp.chars].1, r.pals[sp.pal].1, 0) {
        assert forall|i: int| 0 <= i < seq![sp].len() implies ({
            let s = #[trigger] seq![sp][i];
            sheet_fits(r.chars[s.chars].1, r.pals[s.pal].1, 0)
        }) by {
            assert(i == 0);
        }
    }
}

proof fn lemma_sheets_fit_concat(r: Resources, a: Seq<Sprite>, b: Seq<Sprite>)
    ensures
        sheets_fit(r, a + b) == (sheets_fit(r, a) && sheets_fit(r, b)),
{
    if sheets_fit(r, a + b) {
        assert forall|i: int| 0 <= i < a.len() implies ({
            let s = #[trigger] a[i];
            sheet_fits(r.chars[s.chars].1, r.pals[s.pal].1, 0)
        }) by {
            assert((a + b)[i] == a[i]);
        }
        assert forall|i: int| 0 <= i < b.len() implies ({
            let s = #[trigger] b[i];
            sheet_fits(r.chars[s.chars].1, r.pals[s.pal].1, 0)
        }) by {
            assert((a + b)[a.len() + i] == b[i]);
        }
    }
    if sheets_fit(r, a) && sheets_fit(r, b) {
        assert forall|i: int| 0 <= i < (a + b).len() implies ({
            let s = #[trigger] (a + b)[i];
            sheet_fits(r.chars[s.chars].1, r.pals[s.pal].1, 0)
        }) by {
            if i < a.len() {
                assert((a + b)[i] == a[i]);
            } else {
                assert((a + b)[i] == b[i - a.len()]);
            }
        }
    }
}

/// Whether every pokegra sheet can be rendered.
fn shiny_fit(pals: &Vec<(usize, Nclr)>, chars: &Vec<(usize, Ncgr)>, cells: &Vec<(usize, Ncer)>) -> (b: bool)
    requires
        apart(res_of(pals@, chars@, cells@)),
    ensures
        b == sheets_fit(res_of(pals@, chars@, cells@), shiny_plan(res_of(pals@, chars@, cells@), 0, 0)),
{
    let ghost r = res_of(pals@, chars@, cells@);
    let ghost full = shiny_plan(r, 0, 0);
    let ghost mut done: Seq<Sprite> = seq![];
    let mut ok = true;
    let mut ci: usize = 0;
    let mut pi: usize = 0;
    while ci < chars.len()
        invariant
            r == res_of(pals@, chars@, cells@),
            full == shiny_plan(r, 0, 0),
            apart(r),
            ci <= chars.len(),
            pi <= pals.len(),
            done + shiny_plan(r, ci as int, pi as int) == full,
            ok == sheets_fit(r, done),
        decreases chars.len() - ci + pals.len() - pi,
    {
        let gs = ci;
        let ps = pi;
        while ci < chars.len() && (pi >= pals.len() || chars[ci].0 < pals[pi].0)
            invariant
                r == res_of(pals@, chars@, cells@),
                gs <= ci <= chars.len(),
                pi == ps,
                pi <= pals.len(),
                adv_chars(r, ci as int, pi as int) == adv_chars(r, gs as int, pi as int),
            decreases chars.len() - ci,
        {
            ci = ci + 1;
        }
        assert(adv_chars(r, ci as int, ps as int) == ci as int);
        while pi < pals.len() && (ci >= chars.len() || pals[pi].0 < chars[ci].0)
            invariant
                r == res_of(pals@, chars@, cells@),
                ps <= pi <= pals.len(),
                ci <= chars.len(),
                adv_pals(r, ci as int, pi as int) == adv_pals(r, ci as int, ps as int),
            decreases pals.len() - pi,
        {
            pi = pi + 1;
        }
        assert(adv_pals(r, ci as int, pi as int) == pi as int);
        proof {
            if ci == gs {
                assert(ps < pals.len());
                assert(r.pals[ps as int].0 != r.chars[gs as int].0);
                assert(pi > ps);
            }
        }
        let ghost here = if pi == ps {
            Seq::<Sprite>::empty()
        } else {
            Seq::new((ci - gs) as nat, |j: int| shiny_sprite(r, gs as int, ps as int, (pi - ps) as int, j))
        };
        assert(shiny_plan(r, gs as int, ps as int) == here + shiny_plan(r, ci as int, pi as int));
        let mut here_ok = true;
        if pi > ps {
            let mut g: usize = gs;
            while g < ci
                invariant
                    r == res_of(pals@, chars@, cells@),
                    gs <= g <= ci <= chars.len(),
                    ps < pi <= pals.len(),
                    here == Seq::new((ci - gs) as nat, |j: int| shiny_sprite(r, gs as int, ps as int, (pi - ps) as int, j)),
                    here_ok == sheets_fit(r, here.subrange(0, g - gs)),
                decreases ci - g,
            {
                let f = sheet_fits_exec(&chars[g].1);
                proof {
                    let sp = here[g - gs];
                    assert(sp == shiny_sprite(r, gs as int, ps as int, (pi - ps) as int, (g - gs) as int));
                    assert(r.chars[g as int].1 == chars[g as int].1@);
                    assert(f == sheet_fits(r.chars[sp.chars].1, r.pals[sp.pal].1, 0));
                    assert(here.subrange(0, g + 1 - gs) =~= here.subrange(0, g - gs) + seq![sp]);
                    lemma_sheets_fit_concat(r, here.subrange(0, g - gs), seq![sp]);
                    lemma_sheets_fit_one(r, sp);
                }
                here_ok = here_ok && f;
                g = g + 1;
            }
            assert(here.subrange(0, (ci - gs) as int) =~= here);
        } else {
            assert(sheets_fit(r, here));
        }
        proof {
            lemma_sheets_fit_concat(r, done, here);
            assert(done + here + shiny_plan(r, ci as int, pi as int) =~= done + (here + shiny_plan(r, ci as int, pi as int)));
            done = done + here;
        }
        ok = ok && here_ok;
    }
    proof {
        assert(shiny_plan(r, ci as int, pi as int) =~= Seq::<Sprite>::empty());
        assert(done + shiny_plan(r, ci as int, pi as int) =~= done);
    }
    ok
}

/// Whether `collect_sprites` can decode the archive without arithmetic
/// overflow (what it asks of its arguments beyond readable files).
pub fn sprites_fit_exec(narc: &Narc, raw: bool, cipher: SpriteCipher) -> (b: bool)
    requires
        sprites_readable(*narc),
    ensures
        b == sprites_fit(resources(*narc, cipher), raw, cipher),
{
    let (pals, chars, cells) = gather(narc, cipher);
    let ghost r = resources(*narc, cipher);
    proof {
        lemma_resources_shape(*narc, cipher, narc.entries().len() as int);
        assert(res_of(pals@, chars@, cells@) == r);
    }
    if pals.len() == 0 || chars.len() == 0 {
        return true;
    }
    let pal_ix = indices(&pals);
    let char_ix = indices(&chars);
    proof {
        assert(ixs(pal_ix@) =~= pal_idx(r));
        assert(ixs(char_ix@) =~= char_idx(r));
        assert(pal_ix@.len() == pals.len() && char_ix@.len() == chars.len()) by {
            assert(ixs(pal_ix@).len() == pal_idx(r).len());
            assert(ixs(char_ix@).len() == char_idx(r).len());
        }
    }
    let mut cells_ok = true;
    let mut shown = false;
    if !raw && cells.len() > 0 {
        let mut k: usize = 0;
        while k < cells.len()
            invariant
                r == res_of(pals@, chars@, cells@),
                pals.len() > 0,
                chars.len() > 0,
                pal_ix@.len() == pals.len(),
                char_ix@.len() == chars.len(),
                ixs(pal_ix@) == pal_idx(r),
                ixs(char_ix@) == char_idx(r),
                k <= cells.len(),
                cells_ok == forall|j: int, c: int| 0 <= j < k && 0 <= c < r.banks[j].1.1.len() ==>
                    cell_fits(#[trigger] r.banks[j].1.1[c], r.chars[bank_chars(r, j)].1, r.pals[bank_pal(r, j)].1, r.banks[j].1.0),
                shown == banks_show(r, k as int),
            decreases cells.len() - k,
        {
            let ci = cells[k].0;
            let gi = preceding_or_nearest(&char_ix, ci).unwrap();
            let pi = nearest(&pal_ix, ci).unwrap();
            let bank = &cells[k].1;
            assert(r.banks[k as int] == (ci as int, bank@));
            assert(gi as int == bank_chars(r, k as int));
            assert(pi as int == bank_pal(r, k as int));
            assert(r.chars[gi as int].1 == chars[gi as int].1@);
            assert(r.pals[pi as int].1 == pals[pi as int].1@);
            let mut here_ok = true;
            let mut here_shows = false;
            let mut c: usize = 0;
            while c < bank.cells.len()
                invariant
                    r == res_of(pals@, chars@, cells@),
                    k < cells.len(),
                    bank == &cells[k as int].1,
                    r.banks[k as int] == (ci as int, bank@),
                    gi < chars.len(),
                    pi < pals.len(),
                    gi as int == bank_chars(r, k as int),
                    pi as int == bank_pal(r, k as int),
                    r.chars[gi as int].1 == chars[gi as int].1@,
                    r.pals[pi as int].1 == pals[pi as int].1@,
                    c <= bank.cells.len(),
                    here_ok == forall|i: int| 0 <= i < c ==> cell_fits(#[trigger] r.banks[k as int].1.1[i], r.chars[gi as int].1,
                        r.pals[pi as int].1, r.banks[k as int].1.0),
                    here_shows == shows_in(r, k as int, c as int),
                decreases bank.cells.len() - c,
            {
                assert(r.banks[k as int].1.1[c as int] == bank.cells[c as int]@);
                let f = cell_fits_exec(&bank.cells[c], &chars[gi].1, &pals[pi].1, bank.mapping_type);
                let sh = cell_shows_exec(&bank.cells[c]);
                proof {
                    assert(sh == cell_shows(r, k as int, c as int));
                    if here_shows {
                        let i = choose|i: int| 0 <= i < c && #[trigger] cell_shows(r, k as int, i);
                        assert(0 <= i < c + 1 && cell_shows(r, k as int, i));
                    }
                    if sh {
                        assert(0 <= c < c + 1 && cell_shows(r, k as int, c as int));
                    }
                    if shows_in(r, k as int, c + 1) && !sh {
                        let i = choose|i: int| 0 <= i < c + 1 && #[trigger] cell_shows(r, k as int, i);
                        assert(i < c);
                    }
                }
                here_ok = here_ok && f;
                here_shows = here_shows || sh;
                c = c + 1;
            }
            proof {
                if shown {
                    let j = choose|j: int| 0 <= j < k && #[trigger] shows_in(r, j, r.banks[j].1.1.len() as int);
                    assert(0 <= j < k + 1 && shows_in(r, j, r.banks[j].1.1.len() as int));
                }
                if here_shows {
                    assert(0 <= k < k + 1 && shows_in(r, k as int, r.banks[k as int].1.1.len() as int));
                }
                if banks_show(r, k + 1) && !here_shows {
                    let j = choose|j: int| 0 <= j < k + 1 && #[trigger] shows_in(r, j, r.banks[j].1.1.len() as int);
                    assert(j < k);
                }
            }
            cells_ok = cells_ok && here_ok;
            shown = shown || here_shows;
            k = k + 1;
        }
        proof {
            lemma_banks_plan_len(r, r.banks.len() as int);
        }
        if !cells_ok {
            return false;
        }
        if shown {
            return true;
        }
    }
    assert(!cells_chosen(r, raw)) by {
        if !raw && r.banks.len() > 0 {
            lemma_banks_plan_len(r, r.banks.len() as int);
        }
    }
    let enciphered = match cipher {
        SpriteCipher::Unencrypted => false,
        _ => true,
    };
    if enciphered && !raw {
        return shiny_fit(&pals, &chars, &cells);
    }
    let ghost plain = plain_plan(r);
    let mut ok = true;
    let mut k: usize = 0;
    while k < chars.len()
        invariant
            r == res_of(pals@, chars@, cells@),
            plain == plain_plan(r),
            pals.len() > 0,
            k <= chars.len(),
            ok == sheets_fit(r, plain.subrange(0, k as int)),
        decreases chars.len() - k,
    {
        let f = sheet_fits_exec(&chars[k].1);
        proof {
            let sp = plain[k as int];
            assert(sp == plain_sprite(r, k as int));
            assert(r.chars[k as int].1 == chars[k as int].1@);
            assert(f == sheet_fits(r.chars[sp.chars].1, r.pals[sp.pal].1, 0));
            assert(plain.subrange(0, k + 1) =~= plain.subrange(0, k as int) + seq![sp]);
            lemma_sheets_fit_concat(r, plain.subrange(0, k as int), seq![sp]);
            lemma_sheets_fit_one(r, sp);
        }
        ok = ok && f;
        k = k + 1;
    }
    assert(plain.subrange(0, chars.len() as int) =~= plain);
    ok
}


/// The picture a sprite describes is unique: two images showing it have the
/// same size and the same bytes.
pub proof fn lemma_sprite_image_unique(a: Image, b: Image, s: Sprite, r: Resources)
    requires
        shows_sprite(a, s, r),
        shows_sprite(b, s, r),
    ensures
        a.width == b.width,
        a.height == b.height,
        a.data@ == b.data@,
{
    let w = a.width as int;
    let h = a.height as int;
    assert forall|x: int, y: int| 0 <= x < w && 0 <= y < h implies #[trigger] pixel_at(a.data@, w, x, y) == pixel_at(b.data@, w, x, y) by {
        assert(pixel_at(a.data@, a.width as int, x, y) == pixel_at(a.data@, w, x, y));
        assert(pixel_at(b.data@, b.width as int, x, y) == pixel_at(b.data@, w, x, y));
    }
    crate::image::lemma_pixels_determine(a.data@, b.data@, w, h);
}

} // verus!
