//! What the decoders read from their input bytes, stated against the file
//! formats' own tables and bit layouts.
use crate::blz::{blz_copy, blz_run};
use crate::cell::{cell_box, cell_pixel, obj_covers, obj_index, obj_paints};
use crate::cg::{tile_value, decrypted, lcg_key, nclr_of, ttlp_block, CharModel, PaletteModel, SpriteCipher};
use crate::laws::law_stamp_detected;
use crate::ncer::{kbec_block, ncer_of, oam_cursor, CellModel, Oam};
use crate::signature::{extension_text, format_of, Signature};
use crate::rom::{file_bytes, Rom};
use vstd::prelude::*;

verus! {

/// Whether data starting with `stamp` (then `rest`) is detected as `sig` and
/// written with extension `ext`.
pub open spec fn detected_as(stamp: Seq<u8>, rest: Seq<u8>, sig: Signature, ext: Seq<char>) -> bool {
    &&& format_of(stamp + rest) == sig
    &&& extension_text(format_of(stamp + rest)) == ext
}

/// Detection follows the format table: data that starts with a format's four
/// stamp bytes is that format whatever follows, and is written with the
/// format's extension; data shorter than a stamp is unknown ("bin").
pub proof fn law_stamp_table(rest: Seq<u8>)
    ensures
        detected_as(seq![78u8, 65u8, 82u8, 67u8], rest, Signature::Narc, "narc"@),
        detected_as(seq![82u8, 76u8, 67u8, 78u8], rest, Signature::Nclr, "nclr"@),
        detected_as(seq![82u8, 71u8, 67u8, 78u8], rest, Signature::Ncgr, "ncgr"@),
        detected_as(seq![82u8, 67u8, 83u8, 78u8], rest, Signature::Nscr, "nscr"@),
        detected_as(seq![82u8, 69u8, 67u8, 78u8], rest, Signature::Ncer, "ncer"@),
        detected_as(seq![82u8, 78u8, 65u8, 78u8], rest, Signature::Nanr, "nanr"@),
        detected_as(seq![82u8, 67u8, 77u8, 78u8], rest, Signature::Nmcr, "nmcr"@),
        detected_as(seq![82u8, 65u8, 77u8, 78u8], rest, Signature::Nmar, "nmar"@),
        detected_as(seq![66u8, 77u8, 68u8, 48u8], rest, Signature::Nsbmd, "nsbmd"@),
        detected_as(seq![66u8, 84u8, 88u8, 48u8], rest, Signature::Nsbtx, "nsbtx"@),
        detected_as(seq![66u8, 67u8, 65u8, 48u8], rest, Signature::Nsbca, "nsbca"@),
        detected_as(seq![66u8, 84u8, 80u8, 48u8], rest, Signature::Nsbtp, "nsbtp"@),
        detected_as(seq![66u8, 84u8, 65u8, 48u8], rest, Signature::Nsbta, "nsbta"@),
        detected_as(seq![66u8, 77u8, 65u8, 48u8], rest, Signature::Nsbma, "nsbma"@),
        detected_as(seq![66u8, 86u8, 65u8, 48u8], rest, Signature::Nsbva, "nsbva"@),
        detected_as(seq![83u8, 68u8, 65u8, 84u8], rest, Signature::Sdat, "sdat"@),
        rest.len() < 4 ==> format_of(rest) == Signature::Unknown && extension_text(format_of(rest)) == "bin"@,
{
    law_stamp_detected(Signature::Narc, rest);
    law_stamp_detected(Signature::Nclr, rest);
    law_stamp_detected(Signature::Ncgr, rest);
    law_stamp_detected(Signature::Nscr, rest);
    law_stamp_detected(Signature::Ncer, rest);
    law_stamp_detected(Signature::Nanr, rest);
    law_stamp_detected(Signature::Nmcr, rest);
    law_stamp_detected(Signature::Nmar, rest);
    law_stamp_detected(Signature::Nsbmd, rest);
    law_stamp_detected(Signature::Nsbtx, rest);
    law_stamp_detected(Signature::Nsbca, rest);
    law_stamp_detected(Signature::Nsbtp, rest);
    law_stamp_detected(Signature::Nsbta, rest);
    law_stamp_detected(Signature::Nsbma, rest);
    law_stamp_detected(Signature::Nsbva, rest);
    law_stamp_detected(Signature::Sdat, rest);
}

/// A 16-bit little-endian word read as signed.
pub open spec fn signed_word(lo: u8, hi: u8) -> int {
    let v = lo as int + 256 * hi as int;
    if hi >= 128 { v - 65536 } else { v }
}

/// The size in tiles (width, height) the OAM table gives a shape and size:
/// square, wide and tall rows, each from the smallest size up.
pub open spec fn oam_table(shape: int, size: int) -> (u32, u32) {
    let row = if shape == 0 {
        seq![(1u32, 1u32), (2u32, 2u32), (4u32, 4u32), (8u32, 8u32)]
    } else if shape == 1 {
        seq![(2u32, 1u32), (4u32, 1u32), (4u32, 2u32), (8u32, 4u32)]
    } else if shape == 2 {
        seq![(1u32, 2u32), (1u32, 4u32), (2u32, 4u32), (4u32, 8u32)]
    } else {
        seq![(1u32, 1u32), (1u32, 1u32), (1u32, 1u32), (1u32, 1u32)]
    };
    row[size]
}

/// Every object of a parsed cell bank is read from its three attribute words:
/// the first word's top two bits pick the shape and the second word's top two
/// bits the size (wide objects are wider than tall, tall ones the transpose),
/// the low byte of the first word is the signed y, the low nine bits of the
/// second the signed x, its bits 12 and 13 the flips, bit 13 of the first word
/// the 256-colour flag, and the third word holds the character name (low ten
/// bits) and the palette (top four bits).
pub proof fn law_ncer_objects(f: Seq<u8>, i: int, j: int)
    requires
        kbec_block(f) is Some,
        0 <= i < ncer_of(f).1.len(),
        0 <= j < ncer_of(f).1[i].oams.len(),
    ensures
        ({
            let b = kbec_block(f)->Some_0;
            let o = oam_cursor(b, i) + 6 * j;
            let obj = ncer_of(f).1[i].oams[j];
            &&& 0 <= o && o + 6 <= b.len()
            &&& (obj.width_tiles, obj.height_tiles) == oam_table(b[o + 1] as int / 64, b[o + 3] as int / 64)
            &&& obj.y as int == if b[o] >= 128 { b[o] as int - 256 } else { b[o] as int }
            &&& obj.x as int == if b[o + 3] % 2 == 1 { b[o + 2] as int - 256 } else { b[o + 2] as int }
            &&& obj.h_flip == (b[o + 3] / 16 % 2 == 1)
            &&& obj.v_flip == (b[o + 3] / 32 % 2 == 1)
            &&& obj.color256 == (b[o + 1] / 32 % 2 == 1)
            &&& obj.char_name as int == b[o + 4] as int + 256 * (b[o + 5] as int % 4)
            &&& obj.palette as int == b[o + 5] as int / 16
        }),
{
    let b = kbec_block(f)->Some_0;
    let o = oam_cursor(b, i) + 6 * j;
    let c = oam_cursor(b, i);
    let n = crate::ncer::cell_oam_count(b, i);
    let fit = if c + 6 > b.len() { 0 } else { (b.len() - c) / 6 };
    assert(j < fit);
    assert(0 <= c) by {
        lemma_cursor_nonneg(b, i);
    }
    assert(6 * j + 6 <= b.len() - c) by (nonlinear_arith)
        requires
            j < fit,
            fit == (b.len() - c) / 6,
            0 <= j,
            c + 6 <= b.len(),
    ;
    let a0 = b[o] as int + 256 * b[o + 1] as int;
    let a1 = b[o + 2] as int + 256 * b[o + 3] as int;
    let a2 = b[o + 4] as int + 256 * b[o + 5] as int;
    assert(a0 / 16384 == b[o + 1] as int / 64);
    assert(a1 / 16384 == b[o + 3] as int / 64);
    assert(a0 % 256 == b[o] as int);
    assert(a1 % 512 == b[o + 2] as int + 256 * (b[o + 3] as int % 2));
    assert((a1 / 4096) % 2 == (b[o + 3] as int / 16) % 2);
    assert((a1 / 8192) % 2 == (b[o + 3] as int / 32) % 2);
    assert((a0 / 8192) % 2 == (b[o + 1] as int / 32) % 2);
    assert(a2 % 1024 == b[o + 4] as int + 256 * (b[o + 5] as int % 4));
    assert((a2 / 4096) % 16 == b[o + 5] as int / 16);
}

proof fn lemma_cursor_nonneg(b: Seq<u8>, i: int)
    requires
        0 <= i,
    ensures
        0 <= oam_cursor(b, i),
    decreases i,
{
    if i > 0 {
        lemma_cursor_nonneg(b, i - 1);
    }
    let cs = crate::ncer::cell_size(b);
    assert(0 <= crate::bytes::le16(b, 0x08) * cs) by (nonlinear_arith)
        requires
            0 <= crate::bytes::le16(b, 0x08),
            0 <= cs,
    ;
}

/// The declared bounds of a cell of an extended bank come from its record: the
/// signed words at 12, 14, 8 and 10 are min_x, min_y, max_x and max_y.
pub proof fn law_ncer_bounds(f: Seq<u8>, i: int)
    requires
        kbec_block(f) is Some,
        0 <= i < ncer_of(f).1.len(),
    ensures
        ({
            let b = kbec_block(f)->Some_0;
            let r = 0x20 + 16 * i;
            b[0x0A] == 1 ==> (ncer_of(f).1[i].bounds matches Some(bd) && {
                &&& bd.0 as int == signed_word(b[r + 12], b[r + 13])
                &&& bd.1 as int == signed_word(b[r + 14], b[r + 15])
                &&& bd.2 as int == signed_word(b[r + 8], b[r + 9])
                &&& bd.3 as int == signed_word(b[r + 10], b[r + 11])
            })
        }),
        ({
            let b = kbec_block(f)->Some_0;
            b[0x0A] != 1 ==> ncer_of(f).1[i].bounds is None
        }),
{
}

/// Where the last object that paints a cell pixel is a 16-colour object with
/// palette `p`, the pixel is colour `p * colours_per_palette + index` of the
/// palette; a 256-colour object gives colour `index`; colours past the
/// palette's end are transparent black.
pub proof fn law_cell_pixel_colour(cell: CellModel, g: CharModel, pal: PaletteModel, mt: u32, x: int, y: int, k: int)
    requires
        0 <= k < cell.oams.len(),
        obj_paints(cell.oams[k], g, mt, cell_box(cell).0, cell_box(cell).1, x, y),
        forall|j: int| k < j < cell.oams.len() ==> !obj_paints(#[trigger] cell.oams[j], g, mt, cell_box(cell).0, cell_box(cell).1, x, y),
    ensures
        ({
            let o = cell.oams[k];
            let b = cell_box(cell);
            let idx = obj_index(o, g, mt, b.0, b.1, x, y);
            let c = if o.color256 { idx as int } else { o.palette * pal.per_palette + idx };
            cell_pixel(cell, g, pal, mt, cell.oams.len() as int, x, y)
                == if 0 <= c < pal.colors.len() { pal.colors[c] } else { seq![0u8, 0u8, 0u8, 0u8] }
        }),
{
    lemma_unpainted_above(cell, g, pal, mt, x, y, k + 1, cell.oams.len() as int);
}

/// A cell pixel that no object paints is transparent black.
pub proof fn law_cell_pixel_unpainted(cell: CellModel, g: CharModel, pal: PaletteModel, mt: u32, x: int, y: int)
    requires
        forall|j: int| 0 <= j < cell.oams.len() ==> !obj_paints(#[trigger] cell.oams[j], g, mt, cell_box(cell).0, cell_box(cell).1, x, y),
    ensures
        cell_pixel(cell, g, pal, mt, cell.oams.len() as int, x, y) == seq![0u8, 0u8, 0u8, 0u8],
{
    lemma_unpainted_above(cell, g, pal, mt, x, y, 0, cell.oams.len() as int);
}

proof fn lemma_unpainted_above(cell: CellModel, g: CharModel, pal: PaletteModel, mt: u32, x: int, y: int, lo: int, n: int)
    requires
        0 <= lo <= n <= cell.oams.len(),
        forall|j: int| lo <= j < cell.oams.len() ==> !obj_paints(#[trigger] cell.oams[j], g, mt, cell_box(cell).0, cell_box(cell).1, x, y),
    ensures
        cell_pixel(cell, g, pal, mt, n, x, y) == cell_pixel(cell, g, pal, mt, lo, x, y),
    decreases n - lo,
{
    if n > lo {
        lemma_unpainted_above(cell, g, pal, mt, x, y, lo, n - 1);
        assert(!obj_paints(cell.oams[n - 1], g, mt, cell_box(cell).0, cell_box(cell).1, x, y));
    }
}

/// What a back-reference copy does: when it completes, the `len` bytes below
/// the write cursor each equal the byte `disp` above them (so an overlapping
/// copy repeats a pattern), the cursor moves down by `len`, and nothing else
/// changes; it completes exactly when the cursor can move down by `len` and
/// the source lies inside the buffer.
pub proof fn law_blz_copy(out: Seq<u8>, raw: int, disp: int, len: nat, out_len: int)
    requires
        out.len() == out_len,
        0 <= raw <= out_len,
        disp >= 1,
    ensures
        ({
            let (o2, r2, ok) = blz_copy(out, raw, disp, len, out_len);
            &&& o2.len() == out_len
            &&& ok == (len == 0 || (raw >= len && raw + disp <= out_len))
            &&& ok ==> r2 == raw - len
            &&& ok ==> forall|t: int| 0 <= t < len ==> #[trigger] o2[raw - 1 - t] == o2[raw - 1 - t + disp]
            &&& ok ==> forall|p: int| 0 <= p < out_len && !(raw - len <= p < raw) ==> #[trigger] o2[p] == out[p]
        }),
    decreases len,
{
    if len > 0 && !(raw < 1 || raw + disp > out_len) {
        let out1 = out.update(raw - 1, out[raw - 1 + disp]);
        law_blz_copy(out1, raw - 1, disp, (len - 1) as nat, out_len);
        let (o2, r2, ok) = blz_copy(out, raw, disp, len, out_len);
        if ok {
            assert forall|t: int| 0 <= t < len implies #[trigger] o2[raw - 1 - t] == o2[raw - 1 - t + disp] by {
                if t == 0 {
                    assert(o2[raw - 1] == out1[raw - 1]);
                    assert(o2[raw - 1 + disp] == out1[raw - 1 + disp]);
                } else {
                    let t1 = t - 1;
                    assert(o2[(raw - 1) - 1 - t1] == o2[(raw - 1) - 1 - t1 + disp]);
                }
            }
            assert forall|p: int| 0 <= p < out_len && !(raw - len <= p < raw) implies #[trigger] o2[p] == out[p] by {
                assert(o2[p] == out1[p]);
            }
        }
    }
}

/// A set flag bit reads a back-reference pair below the read cursor: the
/// high byte's upper four bits plus 3 are the length, and its lower four bits
/// (as bits 8..11) with the low byte, plus 3, the displacement; the copy is
/// made and decoding goes on with the next flag bit two bytes further down,
/// unless the copy stopped or the stream ended.
pub proof fn law_blz_pair(out: Seq<u8>, pak: int, raw: int, flags: int, k: nat, pak_end: int, out_len: int)
    requires
        2 <= pak <= out.len(),
        raw >= 1,
        k > 0,
        flags >= 128,
    ensures
        ({
            let hi: u8 = out[pak - 1];
            let lo: u8 = out[pak - 2];
            let length = (hi >> 4u8) as int + 3;
            let disp = ((((hi & 0x0Fu8) as u16) << 8u16) | (lo as u16)) as int + 3;
            let (o2, r2, ok) = blz_copy(out, raw, disp, length as nat, out_len);
            blz_run(out, pak, raw, flags, k, pak_end, out_len) == if !ok || pak - 2 <= pak_end {
                o2
            } else {
                blz_run(o2, pak - 2, r2, (flags * 2) % 256, (k - 1) as nat, pak_end, out_len)
            }
        }),
{
    let hi: u8 = out[pak - 1];
    let lo: u8 = out[pak - 2];
    assert((hi >> 4u8) == hi / 16u8) by (bit_vector);
    assert((((hi & 0x0Fu8) as u16) << 8u16) | (lo as u16) == ((hi % 16u8) as u16) * 256u16 + (lo as u16)) by (bit_vector);
}

/// A clear flag bit copies the byte below the read cursor to below the write
/// cursor, and decoding goes on with the next flag bit, unless the stream ended.
pub proof fn law_blz_literal(out: Seq<u8>, pak: int, raw: int, flags: int, k: nat, pak_end: int, out_len: int)
    requires
        1 <= pak <= out.len(),
        1 <= raw <= out.len(),
        k > 0,
        0 <= flags < 128,
    ensures
        ({
            let o2 = out.update(raw - 1, out[pak - 1]);
            &&& o2[raw - 1] == out[pak - 1]
            &&& blz_run(out, pak, raw, flags, k, pak_end, out_len) == if pak - 1 <= pak_end {
                o2
            } else {
                blz_run(o2, pak - 1, raw - 1, (flags * 2) % 256, (k - 1) as nat, pak_end, out_len)
            }
        }),
{
}

/// A 5-bit channel widened to 8 bits: shifted up three places, its top two
/// bits repeated below.
pub open spec fn channel8(v: int) -> int {
    v * 8 + v / 4
}

/// Each palette colour is one little-endian BGR555 word after the 0x18-byte
/// block header: red in bits 0..4, green in 5..9, blue in 10..14, each widened
/// to 8 bits, fully opaque; a colour depth word of 4 (8 bits per pixel) gives
/// one 256-colour palette, any other 16-colour sub-palettes.
pub proof fn law_palette_colours(f: Seq<u8>, i: int)
    requires
        ttlp_block(f) is Some,
        0 <= i < nclr_of(f).colors.len(),
    ensures
        ({
            let b = ttlp_block(f)->Some_0;
            let lo = b[0x18 + 2 * i] as int;
            let hi = b[0x19 + 2 * i] as int;
            let c = nclr_of(f).colors[i];
            &&& c.len() == 4
            &&& c[0] as int == channel8(lo % 32)
            &&& c[1] as int == channel8(lo / 32 + (hi % 4) * 8)
            &&& c[2] as int == channel8((hi / 4) % 32)
            &&& c[3] == 255
            &&& nclr_of(f).per_palette == if b[8] == 4 && b[9] == 0 && b[10] == 0 && b[11] == 0 { 256usize } else { 16usize }
        }),
{
    let b = ttlp_block(f)->Some_0;
    let lo: u8 = b[0x18 + 2 * i];
    let hi: u8 = b[0x19 + 2 * i];
    let w: u16 = ((lo as u16) + 256u16 * (hi as u16)) as u16;
    assert(w as int == crate::bytes::le16(b, 0x18 + 2 * i));
    assert(w % 32u16 == (lo % 32u8) as u16) by (bit_vector)
        requires
            w == (lo as u16) + 256u16 * (hi as u16),
    ;
    assert((w / 32u16) % 32u16 == (lo / 32u8) as u16 + ((hi % 4u8) as u16) * 8u16) by (bit_vector)
        requires
            w == (lo as u16) + 256u16 * (hi as u16),
    ;
    assert((w / 1024u16) % 32u16 == ((hi / 4u8) % 32u8) as u16) by (bit_vector)
        requires
            w == (lo as u16) + 256u16 * (hi as u16),
    ;
}

/// The sprite cipher's key stream: the first key, then each key times
/// 1103515245 plus 24691, modulo 2^32.
pub open spec fn key_stream(k0: int, j: nat) -> int
    decreases j,
{
    if j == 0 { k0 } else { (key_stream(k0, (j - 1) as nat) * 1103515245 + 24691) % 0x1_0000_0000 }
}

/// The little-endian word at byte `2 * m`.
pub open spec fn word_at(d: Seq<u8>, m: int) -> int {
    d[2 * m] as int + 256 * d[2 * m + 1] as int
}

proof fn lemma_key_stream(k0: int, j: nat)
    ensures
        key_stream(k0, j) == lcg_key(k0, j),
    decreases j,
{
    if j > 0 {
        lemma_key_stream(k0, (j - 1) as nat);
    }
}

/// Front-to-back decryption keys the first word with itself and each later
/// word with the next value of the key stream: word `m` comes out as word `m`
/// XOR the low 16 bits of key `m`, so the first word always decrypts to 0;
/// back-to-front decryption runs the same stream from the last whole word
/// down; an odd trailing byte, and the length, are kept.
#[verifier::rlimit(40)]
pub proof fn law_decrypt_words(d: Seq<u8>, m: int)
    requires
        d.len() >= 2,
        0 <= m < d.len() / 2,
    ensures
        decrypted(d, SpriteCipher::FrontToBack).len() == d.len(),
        decrypted(d, SpriteCipher::BackToFront).len() == d.len(),
        word_at(decrypted(d, SpriteCipher::FrontToBack), m)
            == ((word_at(d, m) as u16) ^ ((key_stream(word_at(d, 0), m as nat) % 0x10000) as u16)) as int,
        word_at(decrypted(d, SpriteCipher::BackToFront), m)
            == ((word_at(d, m) as u16) ^ ((key_stream(word_at(d, d.len() / 2 - 1), (d.len() / 2 - 1 - m) as nat) % 0x10000) as u16)) as int,
        word_at(decrypted(d, SpriteCipher::FrontToBack), 0) == 0,
        word_at(decrypted(d, SpriteCipher::BackToFront), d.len() / 2 - 1) == 0,
        d.len() % 2 == 1 ==> decrypted(d, SpriteCipher::FrontToBack)[d.len() - 1] == d[d.len() - 1]
            && decrypted(d, SpriteCipher::BackToFront)[d.len() - 1] == d[d.len() - 1],
{
    let n = d.len() - d.len() % 2;
    let words = n / 2;
    assert(words == d.len() / 2);
    assert(2 * m + 1 < n);
    assert((2 * m) / 2 == m && (2 * m + 1) / 2 == m && (2 * m) % 2 == 0 && (2 * m + 1) % 2 == 1);
    assert(0 + 1 < n && (0int) / 2 == 0 && (1int) / 2 == 0);
    let last = words - 1;
    assert(2 * last + 1 < n && (2 * last) / 2 == last && (2 * last + 1) / 2 == last && (2 * last) % 2 == 0 && (2 * last + 1) % 2 == 1);
    lemma_key_stream(word_at(d, 0), m as nat);
    lemma_key_stream(word_at(d, last), (last - m) as nat);
    lemma_key_stream(word_at(d, 0), 0);
    lemma_key_stream(word_at(d, last), 0);
    let ft = decrypted(d, SpriteCipher::FrontToBack);
    let bt = decrypted(d, SpriteCipher::BackToFront);
    let xf = crate::cg::xored_word(d, m, lcg_key(word_at(d, 0), m as nat));
    let xb = crate::cg::xored_word(d, m, lcg_key(word_at(d, last), (last - m) as nat));
    let x0 = crate::cg::xored_word(d, 0, lcg_key(word_at(d, 0), 0));
    let xl = crate::cg::xored_word(d, last, lcg_key(word_at(d, last), 0));
    assert(ft[2 * m] as int + 256 * ft[2 * m + 1] as int == xf as int);
    assert(bt[2 * m] as int + 256 * bt[2 * m + 1] as int == xb as int);
    assert(ft[0] as int + 256 * ft[1] as int == x0 as int);
    assert(bt[2 * last] as int + 256 * bt[2 * last + 1] as int == xl as int);
    let u0 = word_at(d, 0) as u16;
    let ul = word_at(d, last) as u16;
    assert(u0 ^ u0 == 0u16) by (bit_vector);
    assert(ul ^ ul == 0u16) by (bit_vector);
    let w0 = word_at(d, 0);
    assert(w0 < 0x10000);
    assert(w0 % 0x10000 == w0);
    let wl = word_at(d, last);
    assert(wl % 0x10000 == wl);
    assert(crate::bytes::le16(d, 2 * m) == word_at(d, m));
    assert(crate::bytes::le16(d, 0) == w0);
    assert(crate::bytes::le16(d, n - 2) == wl);
    assert(crate::bytes::le16(d, 2 * last) == wl);
}

/// The little-endian 32-bit word at `at`.
pub open spec fn word32(d: Seq<u8>, at: int) -> int {
    d[at] as int + 0x100 * d[at + 1] as int + 0x1_0000 * d[at + 2] as int + 0x100_0000 * d[at + 3] as int
}

/// A loaded ROM reads its header words at their fixed offsets (arm9 offset
/// 0x20 and size 0x2C, name table 0x40 and 0x44, allocation table 0x48 and
/// 0x4C, used size 0x80, unit code 0x12), and file `i` is the bytes between
/// the two words of allocation-table entry `i`.
pub proof fn law_rom_layout(rom: Rom, d: Seq<u8>, i: int)
    requires
        rom.loaded_from(d),
        0 <= i < rom.fat().len(),
    ensures
        rom.hdr().arm9_offset == word32(d, 0x20),
        rom.hdr().arm9_size == word32(d, 0x2C),
        rom.hdr().fnt_offset == word32(d, 0x40),
        rom.hdr().fnt_size == word32(d, 0x44),
        rom.hdr().fat_offset == word32(d, 0x48),
        rom.hdr().fat_size == word32(d, 0x4C),
        rom.hdr().rom_size_used == word32(d, 0x80),
        rom.hdr().unit_code == d[0x12],
        rom.fat().len() == word32(d, 0x4C) / 8,
        ({
            let start = word32(d, word32(d, 0x48) + 8 * i);
            let end = word32(d, word32(d, 0x48) + 8 * i + 4);
            &&& rom.fat()[i] == (start as u32, end as u32)
            &&& file_bytes(d, rom.fat(), i) == if start <= end <= d.len() {
                Ok(d.subrange(start, end))
            } else {
                Err(crate::error::Error::EntryOutsideRom)
            }
        }),
{
    let fo = word32(d, 0x48);
    assert(0 <= 8 * i + 8 <= word32(d, 0x4C));
    assert(fo + word32(d, 0x4C) <= d.len());
    let start = word32(d, fo + 8 * i);
    let end = word32(d, fo + 8 * i + 4);
    assert(start < 0x1_0000_0000 && end < 0x1_0000_0000);
}

/// Flipping an object horizontally mirrors it within its own box: the flipped
/// object covers and shows at column `x` what the unflipped one covers and
/// shows at the mirrored column; flipping vertically does the same for rows.
pub proof fn law_object_flips(o: Oam, g: CharModel, mt: u32, min_x: int, min_y: int, x: int, y: int)
    ensures
        ({
            let oh = Oam { h_flip: !o.h_flip, ..o };
            let mx = 2 * (o.x - min_x) + o.width_tiles * 8 - 1 - x;
            &&& obj_covers(oh, min_x, min_y, x, y) == obj_covers(o, min_x, min_y, mx, y)
            &&& obj_index(oh, g, mt, min_x, min_y, x, y) == obj_index(o, g, mt, min_x, min_y, mx, y)
        }),
        ({
            let ov = Oam { v_flip: !o.v_flip, ..o };
            let my = 2 * (o.y - min_y) + o.height_tiles * 8 - 1 - y;
            &&& obj_covers(ov, min_x, min_y, x, y) == obj_covers(o, min_x, min_y, x, my)
            &&& obj_index(ov, g, mt, min_x, min_y, x, y) == obj_index(o, g, mt, min_x, min_y, x, my)
        }),
{
}

/// A 4-bit tile holds 32 bytes, four per row, two pixels per byte with the
/// left pixel in the low nibble; an 8-bit tile holds 64 bytes, one per pixel;
/// pixels past the data are index 0.
pub proof fn law_tile_pixels(cd: Seq<u8>, t: int, px: int, py: int)
    requires
        0 <= t,
        0 <= px < 8,
        0 <= py < 8,
    ensures
        tile_value(cd, 4, t, px, py) == if t * 32 + py * 4 + px / 2 < cd.len() {
            let b: u8 = cd[t * 32 + py * 4 + px / 2];
            if px % 2 == 0 { b & 0x0Fu8 } else { b >> 4u8 }
        } else {
            0u8
        },
        tile_value(cd, 8, t, px, py) == if t * 64 + py * 8 + px < cd.len() { cd[t * 64 + py * 8 + px] } else { 0u8 },
{
    let at = t * 32 + py * 4 + px / 2;
    if at < cd.len() {
        let b: u8 = cd[at];
        assert(b & 0x0Fu8 == b % 16u8) by (bit_vector);
        assert(b >> 4u8 == b / 16u8) by (bit_vector);
    }
}

} // verus!
