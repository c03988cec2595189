//! Detection of Nitro/NDS file formats from their leading 4-byte stamp.
use vstd::prelude::*;

verus! {

/// A recognised Nitro/NDS file format. Container formats keep their stamp
/// forward ("NARC"); the 2D graphics formats store theirs byte-reversed on disk
/// ("NCLR" -> "RLCN").
#[derive(Copy, Clone, PartialEq, Eq, Structural, Debug)]
pub enum Signature {
    Unknown,
    Narc,
    Nclr,
    Ncgr,
    Nscr,
    Ncer,
    Nanr,
    Nmcr,
    Nmar,
    Nsbmd,
    Nsbtx,
    Nsbca,
    Nsbtp,
    Nsbta,
    Nsbma,
    Nsbva,
    Sdat,
}

/// The four-byte stamp written at the start of a file of format `sig`
/// (empty for `Unknown`).
pub open spec fn stamp(sig: Signature) -> Seq<u8> {
    match sig {
        Signature::Unknown => seq![],
        Signature::Narc => seq![78u8, 65u8, 82u8, 67u8],
        Signature::Nclr => seq![82u8, 76u8, 67u8, 78u8],
        Signature::Ncgr => seq![82u8, 71u8, 67u8, 78u8],
        Signature::Nscr => seq![82u8, 67u8, 83u8, 78u8],
        Signature::Ncer => seq![82u8, 69u8, 67u8, 78u8],
        Signature::Nanr => seq![82u8, 78u8, 65u8, 78u8],
        Signature::Nmcr => seq![82u8, 67u8, 77u8, 78u8],
        Signature::Nmar => seq![82u8, 65u8, 77u8, 78u8],
        Signature::Nsbmd => seq![66u8, 77u8, 68u8, 48u8],
        Signature::Nsbtx => seq![66u8, 84u8, 88u8, 48u8],
        Signature::Nsbca => seq![66u8, 67u8, 65u8, 48u8],
        Signature::Nsbtp => seq![66u8, 84u8, 80u8, 48u8],
        Signature::Nsbta => seq![66u8, 84u8, 65u8, 48u8],
        Signature::Nsbma => seq![66u8, 77u8, 65u8, 48u8],
        Signature::Nsbva => seq![66u8, 86u8, 65u8, 48u8],
        Signature::Sdat => seq![83u8, 68u8, 65u8, 84u8],
    }
}

/// Every recognised format, in table order.
pub open spec fn known_signatures() -> Seq<Signature> {
    seq![
        Signature::Narc, Signature::Nclr, Signature::Ncgr, Signature::Nscr, Signature::Ncer,
        Signature::Nanr, Signature::Nmcr, Signature::Nmar, Signature::Nsbmd, Signature::Nsbtx,
        Signature::Nsbca, Signature::Nsbtp, Signature::Nsbta, Signature::Nsbma, Signature::Nsbva,
        Signature::Sdat,
    ]
}

/// The format whose stamp is `t`, or `Unknown`.
pub open spec fn format_of_stamp(t: Seq<u8>) -> Signature {
    if exists|k: int| 0 <= k < 16 && stamp(#[trigger] known_signatures()[k]) == t {
        known_signatures()[choose|k: int| 0 <= k < 16 && stamp(#[trigger] known_signatures()[k]) == t]
    } else {
        Signature::Unknown
    }
}

/// The format of a blob, read from its first four bytes.
pub open spec fn format_of(data: Seq<u8>) -> Signature {
    if data.len() < 4 { Signature::Unknown } else { format_of_stamp(data.subrange(0, 4)) }
}

/// Short lowercase name of each format.
pub open spec fn label_text(sig: Signature) -> Seq<char> {
    match sig {
        Signature::Unknown => "unknown"@,
        Signature::Narc => "narc"@,
        Signature::Nclr => "nclr"@,
        Signature::Ncgr => "ncgr"@,
        Signature::Nscr => "nscr"@,
        Signature::Ncer => "ncer"@,
        Signature::Nanr => "nanr"@,
        Signature::Nmcr => "nmcr"@,
        Signature::Nmar => "nmar"@,
        Signature::Nsbmd => "nsbmd"@,
        Signature::Nsbtx => "nsbtx"@,
        Signature::Nsbca => "nsbca"@,
        Signature::Nsbtp => "nsbtp"@,
        Signature::Nsbta => "nsbta"@,
        Signature::Nsbma => "nsbma"@,
        Signature::Nsbva => "nsbva"@,
        Signature::Sdat => "sdat"@,
    }
}

/// File extension used for each format (`bin` for unknown data).
pub open spec fn extension_text(sig: Signature) -> Seq<char> {
    if sig == Signature::Unknown { "bin"@ } else { label_text(sig) }
}

proof fn lemma_stamps_distinct()
    ensures
        forall|i: int, j: int|
            0 <= i < 16 && 0 <= j < 16 && i != j ==> stamp(#[trigger] known_signatures()[i])
                != stamp(#[trigger] known_signatures()[j]),
        forall|i: int| 0 <= i < 16 ==> stamp(#[trigger] known_signatures()[i]).len() == 4,
{
    assert forall|i: int, j: int|
        0 <= i < 16 && 0 <= j < 16 && i != j implies stamp(#[trigger] known_signatures()[i])
        != stamp(#[trigger] known_signatures()[j]) by {
        let a = stamp(known_signatures()[i]);
        let b = stamp(known_signatures()[j]);
        assert(a[0] != b[0] || a[1] != b[1] || a[2] != b[2] || a[3] != b[3]);
    }
}

/// Each recognised format is detected from its own stamp.
pub proof fn lemma_format_of_stamp(sig: Signature)
    requires
        sig != Signature::Unknown,
    ensures
        format_of_stamp(stamp(sig)) == sig,
{
    lemma_stamps_distinct();
    let k: int = match sig {
        Signature::Narc => 0,
        Signature::Nclr => 1,
        Signature::Ncgr => 2,
        Signature::Nscr => 3,
        Signature::Ncer => 4,
        Signature::Nanr => 5,
        Signature::Nmcr => 6,
        Signature::Nmar => 7,
        Signature::Nsbmd => 8,
        Signature::Nsbtx => 9,
        Signature::Nsbca => 10,
        Signature::Nsbtp => 11,
        Signature::Nsbta => 12,
        Signature::Nsbma => 13,
        Signature::Nsbva => 14,
        _ => 15,
    };
    assert(known_signatures()[k] == sig);
}

fn stamp_is(data: &[u8], a: u8, b: u8, c: u8, d: u8) -> (r: bool)
    requires
        data@.len() >= 4,
    ensures
        r == (data@.subrange(0, 4) == seq![a, b, c, d]),
{
    let r = data[0] == a && data[1] == b && data[2] == c && data[3] == d;
    proof {
        if r {
            assert(data@.subrange(0, 4) =~= seq![a, b, c, d]);
        } else {
            if data@.subrange(0, 4) == seq![a, b, c, d] {
                assert(data@.subrange(0, 4)[0] == a);
                assert(data@.subrange(0, 4)[1] == b);
                assert(data@.subrange(0, 4)[2] == c);
                assert(data@.subrange(0, 4)[3] == d);
            }
        }
    }
    r
}

/// Identify the format of a blob from its leading stamp.
pub fn detect_signature(data: &[u8]) -> (sig: Signature)
    ensures
        sig == format_of(data@),
{
    if data.len() < 4 {
        return Signature::Unknown;
    }
    let ghost t = data@.subrange(0, 4);
    proof {
        lemma_stamps_distinct();
    }
    let sig = if stamp_is(data, 78u8, 65u8, 82u8, 67u8) {
        Signature::Narc
    } else if stamp_is(data, 82u8, 76u8, 67u8, 78u8) {
        Signature::Nclr
    } else if stamp_is(data, 82u8, 71u8, 67u8, 78u8) {
        Signature::Ncgr
    } else if stamp_is(data, 82u8, 67u8, 83u8, 78u8) {
        Signature::Nscr
    } else if stamp_is(data, 82u8, 69u8, 67u8, 78u8) {
        Signature::Ncer
    } else if stamp_is(data, 82u8, 78u8, 65u8, 78u8) {
        Signature::Nanr
    } else if stamp_is(data, 82u8, 67u8, 77u8, 78u8) {
        Signature::Nmcr
    } else if stamp_is(data, 82u8, 65u8, 77u8, 78u8) {
        Signature::Nmar
    } else if stamp_is(data, 66u8, 77u8, 68u8, 48u8) {
        Signature::Nsbmd
    } else if stamp_is(data, 66u8, 84u8, 88u8, 48u8) {
        Signature::Nsbtx
    } else if stamp_is(data, 66u8, 67u8, 65u8, 48u8) {
        Signature::Nsbca
    } else if stamp_is(data, 66u8, 84u8, 80u8, 48u8) {
        Signature::Nsbtp
    } else if stamp_is(data, 66u8, 84u8, 65u8, 48u8) {
        Signature::Nsbta
    } else if stamp_is(data, 66u8, 77u8, 65u8, 48u8) {
        Signature::Nsbma
    } else if stamp_is(data, 66u8, 86u8, 65u8, 48u8) {
        Signature::Nsbva
    } else if stamp_is(data, 83u8, 68u8, 65u8, 84u8) {
        Signature::Sdat
    } else {
        Signature::Unknown
    };
    proof {
        if sig != Signature::Unknown {
            assert(t == stamp(sig));
            lemma_format_of_stamp(sig);
        } else {
            assert forall|k: int| 0 <= k < 16 implies stamp(#[trigger] known_signatures()[k]) != t by {
            }
        }
    }
    sig
}

/// Short lowercase name of a format ("unknown" for unrecognised data).
pub fn signature_label(sig: Signature) -> (s: &'static str)
    ensures
        s@ == label_text(sig),
{
    match sig {
        Signature::Unknown => "unknown",
        Signature::Narc => "narc",
        Signature::Nclr => "nclr",
        Signature::Ncgr => "ncgr",
        Signature::Nscr => "nscr",
        Signature::Ncer => "ncer",
        Signature::Nanr => "nanr",
        Signature::Nmcr => "nmcr",
        Signature::Nmar => "nmar",
        Signature::Nsbmd => "nsbmd",
        Signature::Nsbtx => "nsbtx",
        Signature::Nsbca => "nsbca",
        Signature::Nsbtp => "nsbtp",
        Signature::Nsbta => "nsbta",
        Signature::Nsbma => "nsbma",
        Signature::Nsbva => "nsbva",
        Signature::Sdat => "sdat",
    }
}

/// File extension for a format ("bin" for unrecognised data).
pub fn signature_extension(sig: Signature) -> (s: &'static str)
    ensures
        s@ == extension_text(sig),
{
    if sig == Signature::Unknown {
        "bin"
    } else {
        signature_label(sig)
    }
}

/// Whether a blob starts with the NARC stamp.
pub fn is_narc(data: &[u8]) -> (b: bool)
    ensures
        b == (format_of(data@) == Signature::Narc),
        b == (data@.len() >= 4 && data@.subrange(0, 4) == stamp(Signature::Narc)),
{
    let s = detect_signature(data);
    proof {
        lemma_stamps_distinct();
        if data@.len() >= 4 && data@.subrange(0, 4) == stamp(Signature::Narc) {
            lemma_format_of_stamp(Signature::Narc);
        }
        if s == Signature::Narc {
            let t = data@.subrange(0, 4);
            let k = choose|k: int| 0 <= k < 16 && stamp(#[trigger] known_signatures()[k]) == t;
            assert(known_signatures()[k] == Signature::Narc);
        }
    }
    s == Signature::Narc
}

} // verus!
