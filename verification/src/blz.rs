//! BLZ ("bottom LZ") decompression, as used for the NDS arm9 binary. The
//! compressed stream is processed back-to-front; the trailing 8 bytes encode
//! the compressed length, header length and size increase.
use crate::bytes::le32;
use vstd::prelude::*;

verus! {

/// Size increase recorded in the trailer (0 means "not compressed").
pub open spec fn inc_len(d: Seq<u8>) -> int {
    le32(d, d.len() - 4)
}

/// Length of the trailer-and-padding header below the compressed stream.
pub open spec fn hdr_len(d: Seq<u8>) -> int {
    d[d.len() - 5] as int
}

/// Length of the encoded part (compressed stream plus header) at the end.
pub open spec fn enc_len(d: Seq<u8>) -> int {
    d[d.len() - 8] as int + 256 * (d[d.len() - 7] as int) + 65536 * (d[d.len() - 6] as int)
}

/// Whether `d` carries a usable BLZ trailer.
pub open spec fn blz_compressed(d: Seq<u8>) -> bool {
    d.len() >= 8 && inc_len(d) != 0 && hdr_len(d) <= enc_len(d) <= d.len()
}

/// Copies `left` bytes back-to-front from `disp` bytes above the write
/// cursor; stops (with `false`) when the cursor or the source leaves the buffer.
pub open spec fn blz_copy(out: Seq<u8>, raw: int, disp: int, left: nat, out_len: int) -> (Seq<u8>, int, bool)
    decreases left,
{
    if left == 0 {
        (out, raw, true)
    } else if raw < 1 || raw + disp > out_len {
        (out, raw, false)
    } else {
        blz_copy(out.update(raw - 1, out[raw - 1 + disp]), raw - 1, disp, (left - 1) as nat, out_len)
    }
}

/// The decoder from read cursor `pak` and write cursor `raw`, with `k` items
/// left under the current flag byte `flags` (a new flag byte is read when
/// `k` is 0). The stream ends once `pak` reaches `pak_end`.
pub open spec fn blz_run(out: Seq<u8>, pak: int, raw: int, flags: int, k: nat, pak_end: int, out_len: int) -> Seq<u8>
    decreases pak,
{
    if pak < 0 {
        out
    } else if k == 0 {
        if pak <= pak_end || pak < 1 {
            out
        } else {
            blz_run(out, pak - 1, raw, out[pak - 1] as int, 8, pak_end, out_len)
        }
    } else if flags >= 128 {
        if pak < 2 || raw < 1 {
            out
        } else {
            let p2 = pak - 2;
            let hi = out[p2 + 1] as int;
            let lo = out[p2] as int;
            let length = hi / 16 + 3;
            let disp = (hi % 16) * 256 + lo + 3;
            let (o2, r2, ok) = blz_copy(out, raw, disp, length as nat, out_len);
            if !ok || p2 <= pak_end {
                o2
            } else {
                blz_run(o2, p2, r2, (flags * 2) % 256, (k - 1) as nat, pak_end, out_len)
            }
        }
    } else {
        if pak < 1 || raw < 1 {
            out
        } else {
            let o2 = out.update(raw - 1, out[pak - 1]);
            if pak - 1 <= pak_end {
                o2
            } else {
                blz_run(o2, pak - 1, raw - 1, (flags * 2) % 256, (k - 1) as nat, pak_end, out_len)
            }
        }
    }
}

/// The decompressed form of `d` (`d` itself when it is not BLZ-compressed).
pub open spec fn blz_decoded(d: Seq<u8>) -> Seq<u8> {
    if !blz_compressed(d) {
        d
    } else {
        let n = d.len() as int;
        let dec_start = n - enc_len(d);
        let out_len = n + inc_len(d);
        blz_run(d + Seq::new(inc_len(d) as nat, |i: int| 0u8), dec_start + enc_len(d) - hdr_len(d), out_len,
            0, 0, dec_start, out_len)
    }
}

proof fn lemma_copy_len(out: Seq<u8>, raw: int, disp: int, left: nat, out_len: int)
    requires
        out.len() == out_len,
        raw <= out_len,
    ensures
        blz_copy(out, raw, disp, left, out_len).0.len() == out_len,
        blz_copy(out, raw, disp, left, out_len).1 <= out_len,
    decreases left,
{
    if left > 0 && !(raw < 1 || raw + disp > out_len) {
        lemma_copy_len(out.update(raw - 1, out[raw - 1 + disp]), raw - 1, disp, (left - 1) as nat, out_len);
    }
}

proof fn lemma_run_len(out: Seq<u8>, pak: int, raw: int, flags: int, k: nat, pak_end: int, out_len: int)
    requires
        out.len() == out_len,
        pak <= out_len,
        raw <= out_len,
        0 <= pak_end,
    ensures
        blz_run(out, pak, raw, flags, k, pak_end, out_len).len() == out_len,
    decreases pak,
{
    if pak < 0 {
    } else if k == 0 {
        if pak > pak_end && pak >= 1 {
            lemma_run_len(out, pak - 1, raw, out[pak - 1] as int, 8, pak_end, out_len);
        }
    } else if flags >= 128 {
        if !(pak < 2 || raw < 1) {
            let p2 = pak - 2;
            let hi = out[p2 + 1] as int;
            let lo = out[p2] as int;
            let disp = (hi % 16) * 256 + lo + 3;
            lemma_copy_len(out, raw, disp, (hi / 16 + 3) as nat, out_len);
            let (o2, r2, ok) = blz_copy(out, raw, disp, (hi / 16 + 3) as nat, out_len);
            if ok && p2 > pak_end {
                lemma_run_len(o2, p2, r2, (flags * 2) % 256, (k - 1) as nat, pak_end, out_len);
            }
        }
    } else if !(pak < 1 || raw < 1) {
        if pak - 1 > pak_end {
            lemma_run_len(out.update(raw - 1, out[pak - 1]), pak - 1, raw - 1, (flags * 2) % 256,
                (k - 1) as nat, pak_end, out_len);
        }
    }
}

/// Decompressing grows the data by exactly the recorded size increase, and
/// leaves uncompressed data unchanged.
pub proof fn lemma_decoded_len(d: Seq<u8>)
    ensures
        blz_compressed(d) ==> blz_decoded(d).len() == d.len() + inc_len(d),
        !blz_compressed(d) ==> blz_decoded(d) == d,
{
    if blz_compressed(d) {
        let n = d.len() as int;
        let out_len = n + inc_len(d);
        lemma_run_len(d + Seq::new(inc_len(d) as nat, |i: int| 0u8), n - enc_len(d) + enc_len(d) - hdr_len(d),
            out_len, 0, 0, n - enc_len(d), out_len);
    }
}

/// Decompress a BLZ-compressed buffer (e.g. arm9). Returns the input unchanged
/// if it is not compressed (trailing `inc_len` of 0).
pub fn blz_decode(data: &[u8]) -> (out: Vec<u8>)
    requires
        blz_compressed(data@) ==> data@.len() + inc_len(data@) <= usize::MAX,
    ensures
        out@ == blz_decoded(data@),
{
    let n = data.len();
    if n < 8 {
        return vstd::slice::slice_to_vec(data);
    }
    let inc = crate::bytes::le32_exec(data, n - 4) as usize;
    if inc == 0 {
        return vstd::slice::slice_to_vec(data);
    }
    let hdr = data[n - 5] as usize;
    let enc = data[n - 8] as usize + 256 * (data[n - 7] as usize) + 65536 * (data[n - 6] as usize);
    if enc < hdr || enc > n {
        return vstd::slice::slice_to_vec(data);
    }
    let dec_start = n - enc;
    let comp_len = enc - hdr;
    let out_len = n + inc;

    let mut out: Vec<u8> = Vec::with_capacity(out_len);
    let mut i: usize = 0;
    while i < n
        invariant
            i <= n,
            n == data@.len(),
            out@ == data@.subrange(0, i as int),
        decreases n - i,
    {
        out.push(data[i]);
        i = i + 1;
        assert(out@ =~= data@.subrange(0, i as int));
    }
    let ghost zeros = Seq::new(inc as nat, |j: int| 0u8);
    i = 0;
    while i < inc
        invariant
            i <= inc,
            n == data@.len(),
            zeros == Seq::new(inc as nat, |j: int| 0u8),
            out@ == data@ + zeros.subrange(0, i as int),
        decreases inc - i,
    {
        out.push(0);
        i = i + 1;
        assert(out@ =~= data@ + zeros.subrange(0, i as int));
    }
    assert(zeros.subrange(0, inc as int) =~= zeros);

    let mut pak: usize = dec_start + comp_len;
    let mut raw: usize = out_len;
    let pak_end = dec_start;
    let ghost goal = blz_run(out@, pak as int, raw as int, 0, 0, pak_end as int, out_len as int);
    proof {
        assert(blz_compressed(data@));
        assert(inc == inc_len(data@));
        assert(goal == blz_decoded(data@));
    }

    while pak > pak_end
        invariant
            goal == blz_decoded(data@),
            out@.len() == out_len,
            pak <= out_len,
            raw <= out_len,
            goal == blz_run(out@, pak as int, raw as int, 0, 0, pak_end as int, out_len as int),
        decreases pak,
    {
        let ghost pak_outer = pak;
        pak = pak - 1;
        let mut flags: u8 = out[pak];
        let mut k: usize = 8;
        while k > 0
            invariant
                goal == blz_decoded(data@),
                pak < pak_outer,
                out@.len() == out_len,
                pak <= out_len,
                raw <= out_len,
                pak > pak_end || k == 8,
                goal == blz_run(out@, pak as int, raw as int, flags as int, k as nat, pak_end as int, out_len as int),
            decreases k,
        {
            let ghost out0 = out@;
            let ghost raw0 = raw;
            let ghost pak0 = pak;
            if flags >= 128 {
                if pak < 2 || raw < 1 {
                    return out;
                }
                pak = pak - 2;
                let hi = out[pak + 1] as usize;
                let lo = out[pak] as usize;
                let length = hi / 16 + 3;
                let disp = (hi % 16) * 256 + lo + 3;
                let ghost copied = blz_copy(out0, raw0 as int, disp as int, length as nat, out_len as int);
                let mut c: usize = 0;
                while c < length
                    invariant
                        goal == blz_decoded(data@),
                        goal == blz_run(out0, pak0 as int, raw0 as int, flags as int, k as nat, pak_end as int, out_len as int),
                        flags >= 128,
                        pak0 >= 2,
                        pak == pak0 - 2,
                        k > 0,
                        out0.len() == out_len,
                        pak0 <= out_len,
                        hi == out0[pak0 - 1],
                        lo == out0[pak0 - 2],
                        length == hi / 16 + 3,
                        disp == (hi % 16) * 256 + lo + 3,
                        copied == blz_copy(out0, raw0 as int, disp as int, length as nat, out_len as int),
                        raw0 >= 1,
                        c <= length,
                        out@.len() == out_len,
                        raw <= out_len,
                        copied == blz_copy(out@, raw as int, disp as int, (length - c) as nat, out_len as int),
                    decreases length - c,
                {
                    if raw < 1 || disp > out_len - raw {
                        return out;
                    }
                    raw = raw - 1;
                    let b = out[raw + disp];
                    out.set(raw, b);
                    c = c + 1;
                }
                proof {
                    assert(copied == (out@, raw as int, true));
                }
            } else {
                if pak < 1 || raw < 1 {
                    return out;
                }
                pak = pak - 1;
                raw = raw - 1;
                let b = out[pak];
                out.set(raw, b);
            }
            flags = if flags >= 128 { (flags - 128) * 2 } else { flags * 2 };
            k = k - 1;
            if pak <= pak_end {
                return out;
            }
        }
    }
    out
}

} // verus!
