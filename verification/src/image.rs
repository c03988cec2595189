//! RGBA images and the block layout shared by the 2D graphics formats.
use crate::bytes::{has_tag, le32, le32_exec, tag_at};
use vstd::prelude::*;

verus! {

/// A decoded RGBA8 image (row-major, top-down).
#[derive(Clone)]
pub struct Image {
    pub width: u32,
    pub height: u32,
    /// `width * height * 4` bytes.
    pub data: Vec<u8>,
}

/// Byte offset of pixel (x, y) in a row-major RGBA image `w` pixels wide.
pub open spec fn pixel_offset(w: int, x: int, y: int) -> int {
    (y * w + x) * 4
}

/// `s` with the four bytes at `i` replaced by `c`.
pub open spec fn put4(s: Seq<u8>, i: int, c: Seq<u8>) -> Seq<u8> {
    Seq::new(s.len(), |k: int| if i <= k < i + 4 { c[k - i] } else { s[k] })
}

/// The four bytes of pixel (x, y).
pub open spec fn pixel_at(s: Seq<u8>, w: int, x: int, y: int) -> Seq<u8> {
    s.subrange(pixel_offset(w, x, y), pixel_offset(w, x, y) + 4)
}

/// A fully transparent pixel.
pub open spec fn clear() -> Seq<u8> {
    seq![0u8, 0u8, 0u8, 0u8]
}

pub proof fn lemma_pixel_in_range(w: int, h: int, x: int, y: int)
    requires
        0 <= x < w,
        0 <= y < h,
    ensures
        0 <= pixel_offset(w, x, y),
        pixel_offset(w, x, y) + 4 <= w * h * 4,
{
    assert(y * w + x + 1 <= w * h) by (nonlinear_arith)
        requires
            0 <= x < w,
            0 <= y < h,
    ;
    assert(0 <= y * w) by (nonlinear_arith)
        requires
            0 <= y,
            0 <= w,
    ;
}

/// Two `w` x `h` pixel buffers with the same pixels are the same buffer.
pub proof fn lemma_pixels_determine(a: Seq<u8>, b: Seq<u8>, w: int, h: int)
    requires
        w >= 0,
        h >= 0,
        a.len() == w * h * 4,
        b.len() == w * h * 4,
        forall|x: int, y: int| 0 <= x < w && 0 <= y < h ==> #[trigger] pixel_at(a, w, x, y) == pixel_at(b, w, x, y),
    ensures
        a == b,
{
    assert forall|k: int| 0 <= k < a.len() implies a[k] == b[k] by {
        let p = k / 4;
        let c = k % 4;
        assert(w > 0 && h > 0) by (nonlinear_arith)
            requires
                0 <= k < w * h * 4,
                w >= 0,
                h >= 0,
        ;
        let x = p % w;
        let y = p / w;
        assert(k == p * 4 + c && 0 <= c < 4) by (nonlinear_arith)
            requires
                p == k / 4,
                c == k % 4,
        ;
        assert(p == y * w + x && 0 <= x < w) by (nonlinear_arith)
            requires
                w > 0,
                x == p % w,
                y == p / w,
        ;
        assert(0 <= y < h) by (nonlinear_arith)
            requires
                w > 0,
                y == p / w,
                0 <= p,
                p * 4 + c < w * h * 4,
                0 <= c,
        ;
        assert(pixel_at(a, w, x, y) == pixel_at(b, w, x, y));
        assert(pixel_offset(w, x, y) == p * 4);
        assert(a[k] == pixel_at(a, w, x, y)[c]);
        assert(b[k] == pixel_at(b, w, x, y)[c]);
    }
    assert(a =~= b);
}

impl Image {
    /// Whether the pixel buffer matches the dimensions.
    pub open spec fn wf(&self) -> bool {
        self.data@.len() == self.width * self.height * 4
    }

    /// A transparent black image of the given size.
    pub fn new(width: u32, height: u32) -> (img: Image)
        requires
            width * height * 4 <= usize::MAX,
        ensures
            img.wf(),
            img.width == width,
            img.height == height,
            img.data@ == Seq::new((width * height * 4) as nat, |i: int| 0u8),
    {
        proof {
            assert(0 <= width * height) by (nonlinear_arith);
            assert(width as usize * height as usize <= width * height * 4) by (nonlinear_arith);
        }
        let n = (width as usize) * (height as usize) * 4;
        let mut data: Vec<u8> = Vec::with_capacity(n);
        let mut i: usize = 0;
        while i < n
            invariant
                i <= n,
                data@ == Seq::new(i as nat, |j: int| 0u8),
            decreases n - i,
        {
            data.push(0);
            i = i + 1;
            assert(data@ =~= Seq::new(i as nat, |j: int| 0u8));
        }
        Image { width, height, data }
    }

    /// Whether the image has no pixels.
    pub fn is_empty(&self) -> (b: bool)
        ensures
            b == (self.width == 0 || self.height == 0),
    {
        self.width == 0 || self.height == 0
    }

    /// Sets pixel (x, y); coordinates outside the image are ignored.
    pub fn set(&mut self, x: u32, y: u32, rgba: [u8; 4])
        requires
            old(self).wf(),
        ensures
            final(self).wf(),
            final(self).width == old(self).width,
            final(self).height == old(self).height,
            final(self).data@ == if x < old(self).width && y < old(self).height {
                put4(old(self).data@, pixel_offset(old(self).width as int, x as int, y as int), rgba@)
            } else {
                old(self).data@
            },
    {
        if x < self.width && y < self.height {
            proof {
                lemma_pixel_in_range(self.width as int, self.height as int, x as int, y as int);
            }
            let n = self.data.len();
            assert(y * self.width + x + 1 <= n) by (nonlinear_arith)
                requires
                    x < self.width,
                    y < self.height,
                    n == self.width * self.height * 4,
            ;
            let i = ((y as usize) * (self.width as usize) + x as usize) * 4;
            let ghost before = self.data@;
            self.data.set(i, rgba[0]);
            self.data.set(i + 1, rgba[1]);
            self.data.set(i + 2, rgba[2]);
            self.data.set(i + 3, rgba[3]);
            assert(self.data@ =~= put4(before, i as int, rgba@));
        }
    }
}

/// Where the first block stamped `stamp` lies in a 2D NTR file, searching from
/// `off`: blocks follow the 16-byte header back-to-back, each carrying its own
/// size; the search stops at the first malformed size.
pub open spec fn ntr_block_from(f: Seq<u8>, off: int, a: u8, b: u8, c: u8, d: u8) -> Option<(int, int)>
    decreases f.len() - off,
{
    if off < 0 || off + 8 > f.len() {
        None
    } else {
        let size = le32(f, off + 4);
        if size < 8 || off + size > f.len() {
            None
        } else if tag_at(f, off, a, b, c, d) {
            Some((off, off + size))
        } else {
            ntr_block_from(f, off + size, a, b, c, d)
        }
    }
}

/// The block stamped `a b c d` in a 2D NTR file, if any.
pub open spec fn ntr_block(f: Seq<u8>, a: u8, b: u8, c: u8, d: u8) -> Option<Seq<u8>> {
    match ntr_block_from(f, 0x10, a, b, c, d) {
        Some((s, e)) => Some(f.subrange(s, e)),
        None => None,
    }
}

pub proof fn lemma_ntr_block_bounds(f: Seq<u8>, off: int, a: u8, b: u8, c: u8, d: u8)
    ensures
        ntr_block_from(f, off, a, b, c, d) matches Some((s, e)) ==> 0 <= s && s + 8 <= e <= f.len(),
    decreases f.len() - off,
{
    if !(off < 0 || off + 8 > f.len()) {
        let size = le32(f, off + 4);
        if !(size < 8 || off + size > f.len()) && !tag_at(f, off, a, b, c, d) {
            lemma_ntr_block_bounds(f, off + size, a, b, c, d);
        }
    }
}

/// Locate a block by stamp in a 2D NTR file.
pub fn find_ntr_block<'a>(file: &'a [u8], a: u8, b: u8, c: u8, d: u8) -> (r: Option<&'a [u8]>)
    ensures
        match ntr_block(file@, a, b, c, d) {
            Some(blk) => r matches Some(s) && s@ == blk && s@.len() >= 8,
            None => r is None,
        },
{
    proof {
        lemma_ntr_block_bounds(file@, 0x10, a, b, c, d);
    }
    let mut off: usize = 0x10;
    let ghost goal = ntr_block_from(file@, 0x10, a, b, c, d);
    while off <= file.len() && file.len() - off >= 8
        invariant
            goal == ntr_block_from(file@, 0x10, a, b, c, d),
            goal == ntr_block_from(file@, off as int, a, b, c, d),
        decreases file.len() - off,
    {
        let size = le32_exec(file, off + 4) as usize;
        if size < 8 || size > file.len() - off {
            return None;
        }
        if has_tag(file, off, a, b, c, d) {
            return Some(&file[off..off + size]);
        }
        off = off + size;
    }
    None
}

/// Widens a 5-bit colour channel to 8 bits (`(x << 3) | (x >> 2)`).
pub open spec fn widen5(x: int) -> int {
    x * 8 + x / 4
}

pub fn extend5to8(x: u8) -> (r: u8)
    requires
        x < 32,
    ensures
        r == widen5(x as int),
{
    x * 8 + x / 4
}

/// The opaque RGBA colour of a BGR555 value.
pub open spec fn bgr555_color(c: int) -> Seq<u8> {
    seq![widen5(c % 32) as u8, widen5((c / 32) % 32) as u8, widen5((c / 1024) % 32) as u8, 255u8]
}

pub fn bgr555(c: u16) -> (rgba: [u8; 4])
    ensures
        rgba@ == bgr555_color(c as int),
{
    let r = [
        extend5to8((c % 32) as u8),
        extend5to8(((c / 32) % 32) as u8),
        extend5to8(((c / 1024) % 32) as u8),
        255,
    ];
    assert(r@ =~= bgr555_color(c as int));
    r
}

} // verus!
