//! Bounds-checked little-endian reads over byte buffers.
use vstd::prelude::*;

verus! {

/// Little-endian 16-bit value of the two bytes at `at`.
pub open spec fn le16(s: Seq<u8>, at: int) -> int {
    s[at] as int + 256 * (s[at + 1] as int)
}

/// Little-endian 32-bit value of the four bytes at `at`.
pub open spec fn le32(s: Seq<u8>, at: int) -> int {
    s[at] as int + 256 * (s[at + 1] as int) + 65536 * (s[at + 2] as int) + 16777216 * (s[at + 3] as int)
}

/// Whether `n` bytes starting at `at` lie inside `s`.
pub open spec fn fits(s: Seq<u8>, at: int, n: int) -> bool {
    0 <= at && 0 <= n && at + n <= s.len()
}

/// The byte at `at`, if any.
pub fn u8_at(d: &[u8], at: usize) -> (r: Option<u8>)
    ensures
        r == (if fits(d@, at as int, 1) { Some(d@[at as int]) } else { None::<u8> }),
{
    if at < d.len() { Some(d[at]) } else { None }
}

/// The little-endian u16 at `at`, if the buffer holds it.
pub fn u16_at(d: &[u8], at: usize) -> (r: Option<u16>)
    ensures
        r matches Some(v) ==> fits(d@, at as int, 2) && v == le16(d@, at as int),
        r is None ==> !fits(d@, at as int, 2),
{
    if at < d.len() && d.len() - at >= 2 {
        Some(le16_exec(d, at))
    } else {
        None
    }
}

/// The little-endian u32 at `at`, if the buffer holds it.
pub fn u32_at(d: &[u8], at: usize) -> (r: Option<u32>)
    ensures
        r matches Some(v) ==> fits(d@, at as int, 4) && v == le32(d@, at as int),
        r is None ==> !fits(d@, at as int, 4),
{
    if at < d.len() && d.len() - at >= 4 {
        Some(le32_exec(d, at))
    } else {
        None
    }
}

/// Little-endian u16 at an index known to be in range.
pub fn le16_exec(d: &[u8], at: usize) -> (v: u16)
    requires
        fits(d@, at as int, 2),
    ensures
        v == le16(d@, at as int),
{
    d[at] as u16 + 256 * (d[at + 1] as u16)
}

/// Little-endian u32 at an index known to be in range.
pub fn le32_exec(d: &[u8], at: usize) -> (v: u32)
    requires
        fits(d@, at as int, 4),
    ensures
        v == le32(d@, at as int),
{
    d[at] as u32 + 256 * (d[at + 1] as u32) + 65536 * (d[at + 2] as u32) + 16777216 * (d[at + 3] as u32)
}

} // verus!

verus! {

/// The four bytes `a b c d` as a sequence (a block or file stamp).
pub open spec fn tag4(a: u8, b: u8, c: u8, d: u8) -> Seq<u8> {
    seq![a, b, c, d]
}

/// Whether the four bytes at `at` are the stamp `a b c d`.
pub open spec fn tag_at(s: Seq<u8>, at: int, a: u8, b: u8, c: u8, d: u8) -> bool {
    fits(s, at, 4) && s.subrange(at, at + 4) == tag4(a, b, c, d)
}

/// Checks for the four-byte stamp `a b c d` at `at`.
pub fn has_tag(data: &[u8], at: usize, a: u8, b: u8, c: u8, d: u8) -> (r: bool)
    ensures
        r == tag_at(data@, at as int, a, b, c, d),
{
    if at >= data.len() || data.len() - at < 4 {
        return false;
    }
    let r = data[at] == a && data[at + 1] == b && data[at + 2] == c && data[at + 3] == d;
    proof {
        let t = data@.subrange(at as int, at + 4);
        if r {
            assert(t =~= tag4(a, b, c, d));
        } else if t == tag4(a, b, c, d) {
            assert(t[0] == a && t[1] == b && t[2] == c && t[3] == d);
        }
    }
    r
}

/// Index of the first zero byte of `s` at or after `i`, or `s.len()`.
pub open spec fn nul_from(s: Seq<u8>, i: int) -> int
    decreases s.len() - i,
{
    if i < 0 || i >= s.len() { s.len() as int } else if s[i] == 0 { i } else { nul_from(s, i + 1) }
}

/// The bytes of `s` before the first zero byte.
pub open spec fn until_nul(s: Seq<u8>) -> Seq<u8> {
    s.subrange(0, nul_from(s, 0))
}

pub proof fn lemma_nul_from_bounds(s: Seq<u8>, i: int)
    requires
        0 <= i <= s.len(),
    ensures
        i <= nul_from(s, i) <= s.len(),
    decreases s.len() - i,
{
    if i < s.len() && s[i] != 0 {
        lemma_nul_from_bounds(s, i + 1);
    }
}


/// Whether `p` occurs in `h`.
pub open spec fn has_sub(h: Seq<u8>, p: Seq<u8>) -> bool {
    exists|i: int| 0 <= i && i + p.len() <= h.len() && #[trigger] h.subrange(i, i + p.len()) == p
}

/// Whether the bytes `pat` occur in `hay`.
pub fn contains_bytes(hay: &[u8], pat: &[u8]) -> (b: bool)
    ensures
        b == has_sub(hay@, pat@),
{
    let n = hay.len();
    let m = pat.len();
    if m > n {
        proof {
            assert forall|i: int| 0 <= i && i + m <= n implies #[trigger] hay@.subrange(i, i + pat@.len()) != pat@ by {}
        }
        return false;
    }
    let mut i: usize = 0;
    while i <= n - m
        invariant
            m <= n,
            n == hay@.len(),
            m == pat@.len(),
            i <= n - m + 1,
            forall|k: int| 0 <= k < i ==> #[trigger] hay@.subrange(k, k + m) != pat@,
        decreases n - m + 1 - i,
    {
        let mut j: usize = 0;
        let mut same = true;
        while j < m
            invariant
                i + m <= n,
                n == hay@.len(),
                m == pat@.len(),
                j <= m,
                same == forall|t: int| 0 <= t < j ==> hay@[i + t] == pat@[t],
            decreases m - j,
        {
            if hay[i + j] != pat[j] {
                same = false;
            }
            j = j + 1;
        }
        if same {
            assert(hay@.subrange(i as int, i + m) =~= pat@);
            return true;
        }
        assert(hay@.subrange(i as int, i + m) != pat@) by {
            let t = choose|t: int| 0 <= t < m && hay@[i + t] != pat@[t];
            assert(hay@.subrange(i as int, i + m)[t] != pat@[t]);
        }
        i = i + 1;
    }
    false
}

} // verus!
