//! NCLR palettes, NCGR character (tile) graphics and the sprite cipher.
use crate::bytes::{fits, le16, le16_exec, le32, le32_exec};
use crate::error::Error;
use crate::image::{bgr555, bgr555_color, clear, find_ntr_block, ntr_block};
use vstd::arithmetic::div_mod::{lemma_add_mod_noop, lemma_mod_bound, lemma_small_mod};
use vstd::prelude::*;

verus! {

/// A decoded NCLR palette, split into fixed-size sub-palettes.
pub struct Nclr {
    pub colors_per_palette: usize,
    pub colors: Vec<[u8; 4]>,
}

/// A palette as plain values: colours per sub-palette and the RGBA colours.
pub struct PaletteModel {
    pub per_palette: usize,
    pub colors: Seq<Seq<u8>>,
}

impl View for Nclr {
    type V = PaletteModel;

    open spec fn view(&self) -> PaletteModel {
        PaletteModel { per_palette: self.colors_per_palette, colors: self.colors@.map_values(|c: [u8; 4]| c@) }
    }
}

/// Colour `i` of a palette (transparent black past its end).
pub open spec fn palette_color(colors: Seq<Seq<u8>>, i: int) -> Seq<u8> {
    if 0 <= i < colors.len() { colors[i] } else { clear() }
}

impl Nclr {
    /// Colour `index` of sub-palette `bank` (transparent black if absent).
    pub fn color(&self, bank: usize, index: usize) -> (c: [u8; 4])
        requires
            bank * self.colors_per_palette + index <= usize::MAX,
        ensures
            c@ == palette_color(self@.colors, bank * self.colors_per_palette + index),
    {
        let i = bank * self.colors_per_palette + index;
        if i < self.colors.len() {
            self.colors[i]
        } else {
            let c = [0u8, 0u8, 0u8, 0u8];
            assert(c@ =~= clear());
            c
        }
    }
}

/// The TTLP block of a palette file.
pub open spec fn ttlp_block(f: Seq<u8>) -> Option<Seq<u8>> {
    ntr_block(f, 84, 84, 76, 80)
}

/// Whether `parse_nclr` can read `f` (its TTLP block, if present, reaches the size fields).
pub open spec fn nclr_readable(f: Seq<u8>) -> bool {
    ttlp_block(f) matches Some(b) ==> b.len() >= 0x14
}

/// Number of colour bytes in a TTLP block: the declared size when it is
/// non-zero and fits, else all bytes after the 0x18-byte header.
pub open spec fn ttlp_data_len(b: Seq<u8>) -> int {
    let avail = if b.len() >= 0x18 { b.len() - 0x18 } else { 0 };
    let declared = le32(b, 0x10);
    if declared > 0 && declared <= avail { declared } else { avail }
}

/// The palette stored in `f`: colours per sub-palette and the colours.
pub open spec fn nclr_model(f: Seq<u8>) -> Result<(usize, Seq<Seq<u8>>), Error> {
    match ttlp_block(f) {
        None => Err(Error::MissingBlock),
        Some(b) => Ok((
            if le32(b, 0x08) == 4 { 256usize } else { 16usize },
            Seq::new((ttlp_data_len(b) / 2) as nat, |i: int| bgr555_color(le16(b, 0x18 + 2 * i))),
        )),
    }
}

/// The palette stored in `f` (when it has a TTLP block).
pub open spec fn nclr_of(f: Seq<u8>) -> PaletteModel {
    match nclr_model(f) {
        Ok((cpp, colors)) => PaletteModel { per_palette: cpp, colors },
        Err(_) => PaletteModel { per_palette: 16, colors: seq![] },
    }
}

/// Decodes an NCLR palette.
pub fn parse_nclr(file: &[u8]) -> (r: Result<Nclr, Error>)
    requires
        nclr_readable(file@),
    ensures
        r matches Ok(p) ==> p@ == nclr_of(file@),
        r is Err <==> ttlp_block(file@) is None,
        match nclr_model(file@) {
            Ok((cpp, colors)) => r matches Ok(p) && p.colors_per_palette == cpp
                && p.colors@.len() == colors.len()
                && forall|i: int| 0 <= i < colors.len() ==> (#[trigger] p.colors@[i])@ == colors[i],
            Err(e) => r matches Err(e2) && e2 == e,
        },
{
    let block = match find_ntr_block(file, 84, 84, 76, 80) {
        Some(b) => b,
        None => {
            return Err(Error::MissingBlock);
        },
    };
    let depth = le32_exec(block, 0x08);
    let colors_per_palette: usize = if depth == 4 { 256 } else { 16 };
    let data_off: usize = 0x18;
    let mut data_len = if block.len() >= data_off { block.len() - data_off } else { 0 };
    let declared = le32_exec(block, 0x10) as usize;
    if declared > 0 && declared <= data_len {
        data_len = declared;
    }
    let count = data_len / 2;
    let ghost b = block@;
    let mut colors: Vec<[u8; 4]> = Vec::with_capacity(count);
    let bl = block.len();
    assert(count == 0 || 0x18 + 2 * count <= bl);
    let mut i: usize = 0;
    while i < count
        invariant
            bl == block@.len(),
            data_off == 0x18,
            count == 0 || 0x18 + 2 * count <= bl,
            b == block@,
            count == ttlp_data_len(b) / 2,
            b.len() >= 0x14,
            i <= count,
            colors@.len() == i,
            forall|j: int| 0 <= j < i ==> (#[trigger] colors@[j])@ == bgr555_color(le16(b, 0x18 + 2 * j)),
        decreases count - i,
    {
        let c = bgr555(le16_exec(block, data_off + i * 2));
        colors.push(c);
        i = i + 1;
    }
    let p = Nclr { colors_per_palette, colors };
    assert(p@.colors =~= nclr_of(file@).colors);
    Ok(p)
}

/// A decoded NCGR character set, keeping the raw tiled data so NCER assembly can
/// address individual tiles by number.
pub struct Ncgr {
    /// 4 or 8.
    pub bit_depth: u8,
    pub scanned: bool,
    pub tiles_x: i32,
    pub tiles_y: i32,
    pub char_data: Vec<u8>,
}

/// A character set as plain values.
pub struct CharModel {
    pub bit_depth: u8,
    pub scanned: bool,
    pub tiles_x: i32,
    pub tiles_y: i32,
    pub data: Seq<u8>,
}

impl View for Ncgr {
    type V = CharModel;

    open spec fn view(&self) -> CharModel {
        CharModel {
            bit_depth: self.bit_depth,
            scanned: self.scanned,
            tiles_x: self.tiles_x,
            tiles_y: self.tiles_y,
            data: self.char_data@,
        }
    }
}

/// Bytes per 8x8 tile: 32 at 4 bits per pixel, 64 otherwise.
pub open spec fn tile_bytes(depth: u8) -> int {
    if depth == 4 { 32 } else { 64 }
}

/// Byte offset of pixel (px, py) of tile `tile` at the given bit depth.
pub open spec fn tile_byte(depth: u8, tile: int, px: int, py: int) -> int {
    if depth == 4 { tile * 32 + py * 4 + px / 2 } else { tile * 64 + py * 8 + px }
}

/// Palette index of pixel (px, py) within 8x8 tile `tile` (0 past the data).
pub open spec fn tile_value(cd: Seq<u8>, depth: u8, tile: int, px: int, py: int) -> u8 {
    let at = tile_byte(depth, tile, px, py);
    if 0 <= at < cd.len() {
        if depth == 4 {
            if px % 2 == 1 { cd[at] / 16 } else { cd[at] % 16 }
        } else {
            cd[at]
        }
    } else {
        0
    }
}

impl Ncgr {
    pub fn bytes_per_tile(&self) -> (n: usize)
        ensures
            n == tile_bytes(self.bit_depth),
    {
        if self.bit_depth == 4 { 32 } else { 64 }
    }

    /// Palette index of pixel (px, py) within 8x8 tile `tile`.
    pub fn tile_pixel(&self, tile: usize, px: u32, py: u32) -> (v: u8)
        requires
            tile_byte(self.bit_depth, tile as int, px as int, py as int) <= usize::MAX,
        ensures
            v == tile_value(self.char_data@, self.bit_depth, tile as int, px as int, py as int),
    {
        if self.bit_depth == 4 {
            let at = tile * 32 + (py as usize) * 4 + (px as usize) / 2;
            if at < self.char_data.len() {
                let b = self.char_data[at];
                if px % 2 == 1 { b / 16 } else { b % 16 }
            } else {
                0
            }
        } else {
            let at = tile * 64 + (py as usize) * 8 + px as usize;
            if at < self.char_data.len() {
                self.char_data[at]
            } else {
                0
            }
        }
    }
}

/// The RAHC block of a character file.
pub open spec fn rahc_block(f: Seq<u8>) -> Option<Seq<u8>> {
    ntr_block(f, 82, 65, 72, 67)
}

/// Whether `parse_ncgr` can read `f` (its RAHC block, if present, holds the whole header).
pub open spec fn ncgr_readable(f: Seq<u8>) -> bool {
    rahc_block(f) matches Some(b) ==> b.len() >= 0x20
}

/// A 16-bit value read as signed.
pub open spec fn signed16(v: int) -> int {
    if v >= 0x8000 { v - 0x10000 } else { v }
}

/// The character data of an RAHC block: the declared size, clipped to the block.
pub open spec fn rahc_data(b: Seq<u8>) -> Seq<u8> {
    let size = if le32(b, 0x18) <= b.len() - 0x20 { le32(b, 0x18) } else { b.len() - 0x20 };
    b.subrange(0x20, 0x20 + size)
}

/// Whether `g` is the character set stored in block `b`.
pub open spec fn ncgr_from_block(g: Ncgr, b: Seq<u8>) -> bool {
    &&& g.tiles_y == signed16(le16(b, 0x08))
    &&& g.tiles_x == signed16(le16(b, 0x0A))
    &&& g.bit_depth == if le32(b, 0x0C) == 3 { 4u8 } else { 8u8 }
    &&& g.scanned == (b[0x14] != 0)
    &&& g.char_data@ == rahc_data(b)
}

fn to_signed16(v: u16) -> (r: i32)
    ensures
        r == signed16(v as int),
{
    if v >= 0x8000 { v as i32 - 0x10000 } else { v as i32 }
}

/// The character set stored in `f` (when it has a RAHC block).
pub open spec fn ncgr_of(f: Seq<u8>) -> CharModel {
    match rahc_block(f) {
        Some(b) => CharModel {
            bit_depth: if le32(b, 0x0C) == 3 { 4u8 } else { 8u8 },
            scanned: b[0x14] != 0,
            tiles_x: signed16(le16(b, 0x0A)) as i32,
            tiles_y: signed16(le16(b, 0x08)) as i32,
            data: rahc_data(b),
        },
        None => CharModel { bit_depth: 8, scanned: false, tiles_x: 0, tiles_y: 0, data: seq![] },
    }
}

/// Decodes an NCGR character set.
pub fn parse_ncgr(file: &[u8]) -> (r: Result<Ncgr, Error>)
    requires
        ncgr_readable(file@),
    ensures
        r matches Ok(g) ==> g@ == ncgr_of(file@),
        r is Err <==> rahc_block(file@) is None,
        match rahc_block(file@) {
            Some(b) => r matches Ok(g) && ncgr_from_block(g, b),
            None => r matches Err(e) && e == Error::MissingBlock,
        },
{
    let block = match find_ntr_block(file, 82, 65, 72, 67) {
        Some(b) => b,
        None => {
            return Err(Error::MissingBlock);
        },
    };
    let tiles_y = to_signed16(le16_exec(block, 0x08));
    let tiles_x = to_signed16(le16_exec(block, 0x0A));
    let bit_depth: u8 = if le32_exec(block, 0x0C) == 3 { 4 } else { 8 };
    let scanned = block[0x14] != 0;
    let data_off: usize = 0x20;
    let declared = le32_exec(block, 0x18) as usize;
    let data_size = if declared <= block.len() - data_off { declared } else { block.len() - data_off };
    let char_data = vstd::slice::slice_to_vec(&block[data_off..data_off + data_size]);
    Ok(Ncgr { bit_depth, scanned, tiles_x, tiles_y, char_data })
}

/// The XOR-LCG cipher the games apply to pokegra sprite tiles. Diamond/Pearl
/// encode back-to-front; Platinum/HGSS (and Gen 5) front-to-back.
#[derive(Copy, Clone, PartialEq, Eq, Structural, Debug)]
pub enum SpriteCipher {
    Unencrypted,
    FrontToBack,
    BackToFront,
}

/// One step of the cipher's linear congruential generator, modulo 2^32.
pub open spec fn lcg_next(k: int) -> int {
    (k * 1103515245 + 24691) % 0x1_0000_0000
}

/// The key after `j` generator steps from `k0`.
pub open spec fn lcg_key(k0: int, j: nat) -> int
    decreases j,
{
    if j == 0 { k0 } else { lcg_next(lcg_key(k0, (j - 1) as nat)) }
}

/// Word `m` (little-endian u16 at byte 2m) after XOR with the low 16 bits of `key`.
pub open spec fn xored_word(d: Seq<u8>, m: int, key: int) -> u16 {
    (le16(d, 2 * m) as u16) ^ ((key % 0x10000) as u16)
}

/// Byte `k` of `d` after decryption; the `m`-th word is keyed with generator
/// step `step(m)`, and a trailing odd byte is left as is.
pub open spec fn decrypted(d: Seq<u8>, cipher: SpriteCipher) -> Seq<u8> {
    if cipher == SpriteCipher::Unencrypted || d.len() < 2 {
        d
    } else {
        let n = d.len() - d.len() % 2;
        let words = n / 2;
        let k0 = if cipher == SpriteCipher::FrontToBack { le16(d, 0) } else { le16(d, n - 2) };
        Seq::new(d.len(), |k: int|
            if k < n {
                let m = k / 2;
                let step = if cipher == SpriteCipher::FrontToBack { m } else { words - 1 - m };
                let w = xored_word(d, m, lcg_key(k0, step as nat));
                if k % 2 == 0 { (w % 256) as u8 } else { (w / 256) as u8 }
            } else {
                d[k]
            })
    }
}

proof fn lemma_lcg_step(k: u32)
    ensures
        k.wrapping_mul(1103515245).wrapping_add(24691) == lcg_next(k as int),
{
    let m: int = 0x1_0000_0000;
    let x: int = ((k as nat * 1103515245nat) % (m as nat)) as int;
    assert(k.wrapping_mul(1103515245) == x);
    lemma_mod_bound(k as int * 1103515245, m);
    lemma_add_mod_noop(k as int * 1103515245, 24691, m);
    lemma_small_mod(24691, m as nat);
    if x + 24691 >= m {
        assert((x + 24691) % m == x + 24691 - m) by {
            vstd::arithmetic::div_mod::lemma_mod_sub_multiples_vanish(x + 24691 - m, m);
            lemma_small_mod((x + 24691 - m) as nat, m as nat);
        }
    } else {
        lemma_small_mod((x + 24691) as nat, m as nat);
    }
}

fn write_word(d: &mut [u8], i: usize, v: u16)
    requires
        i + 1 < old(d)@.len(),
    ensures
        final(d)@ == old(d)@.update(i as int, (v % 256) as u8).update(i + 1, (v / 256) as u8),
{
    d[i] = (v % 256) as u8;
    d[i + 1] = (v / 256) as u8;
}

/// Decrypts pokegra tile data in place.
pub fn decrypt_char_data(d: &mut [u8], cipher: SpriteCipher)
    ensures
        final(d)@ == decrypted(old(d)@, cipher),
{
    if cipher == SpriteCipher::Unencrypted || d.len() < 2 {
        return;
    }
    let len = d.len();
    let n = len - len % 2;
    let ghost orig = d@;
    let ghost goal = decrypted(orig, cipher);
    let mut key: u32;
    if cipher == SpriteCipher::FrontToBack {
        key = le16_exec(d, 0) as u32;
        let ghost k0 = key as int;
        let mut i: usize = 0;
        while i + 1 < n
            invariant
                len == orig.len(),
                n == len - len % 2,
                i % 2 == 0,
                i <= n,
                d@.len() == len,
                k0 == le16(orig, 0),
                key == lcg_key(k0, (i / 2) as nat),
                goal == decrypted(orig, cipher),
                cipher == SpriteCipher::FrontToBack,
                forall|k: int| 0 <= k < len ==> #[trigger] d@[k] == if k < i { goal[k] } else { orig[k] },
            decreases n - i,
        {
            let w = le16_exec(d, i);
            assert(w == le16(orig, i as int));
            let v = w ^ ((key % 0x10000) as u16);
            write_word(d, i, v);
            proof {
                lemma_lcg_step(key);
                assert(xored_word(orig, (i / 2) as int, key as int) == v);
            }
            key = key.wrapping_mul(1103515245).wrapping_add(24691);
            i = i + 2;
        }
    } else {
        key = le16_exec(d, n - 2) as u32;
        let ghost k0 = key as int;
        let mut i: usize = n;
        while i >= 2
            invariant
                len == orig.len(),
                n == len - len % 2,
                n >= 2,
                i % 2 == 0,
                i <= n,
                d@.len() == len,
                k0 == le16(orig, n - 2),
                key == lcg_key(k0, ((n - i) / 2) as nat),
                goal == decrypted(orig, cipher),
                cipher == SpriteCipher::BackToFront,
                forall|k: int| 0 <= k < len ==> #[trigger] d@[k] == if i <= k < n { goal[k] } else { orig[k] },
            decreases i,
        {
            let w = le16_exec(d, i - 2);
            assert(w == le16(orig, i - 2));
            let v = w ^ ((key % 0x10000) as u16);
            write_word(d, i - 2, v);
            proof {
                lemma_lcg_step(key);
                assert(xored_word(orig, (i / 2 - 1) as int, key as int) == v);
            }
            key = key.wrapping_mul(1103515245).wrapping_add(24691);
            i = i - 2;
        }
    }
    assert(d@ =~= goal);
}

} // verus!
