//! Planning the asset dump: naming output files, sorting archive contents
//! into 3D files, 2D resources and unknown blobs, choosing the sprite cipher,
//! and encoding sprites as PNG.
use crate::bytes::{contains_bytes, has_sub};
use crate::cell::cell_box;
use crate::cg::SpriteCipher;
use crate::extract::{joined, path_for_id, path_of_id};
use crate::rom::{file_bytes, path_file, FileEntry, Rom};
use crate::text::{decimal_padded, push_padded};
use crate::sheet::{sheet_cols, sheet_rows};
use crate::sprites::{lemma_resources_same, lemma_sprite_image_unique, collect_sprites, resources, shows_sprite, sprite_plan, sprites_fit, sprites_match, sprites_readable, Resources, Sprite};
use crate::image::Image;
use crate::mapping::{code_prefix_of, first_file_at, first_manifest_for, manifest_for_gamecode, GameManifest, ManifestInfo};
use crate::narc::{archive_model, entry_bytes, Narc};
use crate::signature::{detect_signature, format_of, is_narc, Signature};
use vstd::prelude::*;
use vstd::string::StringSliceAdditionalSpecFns;
use vstd::string::StringExecFns;
use vstd::utf8::{decode_utf8, encode_utf8, encode_utf8_decode_utf8, encode_utf8_valid_utf8, is_char_boundary_iff_not_is_continuation_byte};

verus! {

/// Whether `c` may stand in an output file name.
pub open spec fn name_char_ok(c: char) -> bool {
    ('a' <= c <= 'z') || ('A' <= c <= 'Z') || ('0' <= c <= '9') || c == '.' || c == '_' || c == '-'
}

/// `c`, or '_' when it may not stand in a file name.
pub open spec fn safe_char(c: char) -> char {
    if name_char_ok(c) { c } else { '_' }
}

/// A name made safe for the filesystem: ASCII letters, digits, '.', '_' and
/// '-' are kept, every other character becomes '_'; the empty name becomes
/// "unnamed".
pub open spec fn sanitized(name: Seq<char>) -> Seq<char> {
    if name.len() == 0 {
        seq!['u', 'n', 'n', 'a', 'm', 'e', 'd']
    } else {
        name.map_values(|c: char| safe_char(c))
    }
}

fn safe(c: char) -> (r: char)
    ensures
        r == safe_char(c),
{
    if ('a' <= c && c <= 'z') || ('A' <= c && c <= 'Z') || ('0' <= c && c <= '9') || c == '.' || c == '_' || c == '-' {
        c
    } else {
        '_'
    }
}

/// Makes `name` safe for the filesystem.
pub fn sanitize(name: &str) -> (s: String)
    ensures
        s@ == sanitized(name@),
{
    broadcast use vstd::string::axiom_spec_iter;
    let mut s = String::new();
    for c in it: name.chars()
        invariant
            it.seq() == name@,
            s@ == name@.take(it.index()).map_values(|c: char| safe_char(c)),
    {
        proof {
            assert(name@.take(it.index() + 1) =~= name@.take(it.index()).push(c));
        }
        s.push(safe(c));
        proof {
            assert(s@ =~= name@.take(it.index() + 1).map_values(|c: char| safe_char(c)));
        }
    }
    if s.as_str().is_empty() {
        let u = String::from_str("unnamed");
        proof {
            reveal_strlit("unnamed");
        }
        return u;
    }
    s
}


/// Position of the last '.' byte of `b`.
pub open spec fn last_dot(b: Seq<u8>) -> Option<int>
    decreases b.len(),
{
    if b.len() == 0 {
        None
    } else if b.last() == 46 {
        Some(b.len() - 1)
    } else {
        last_dot(b.drop_last())
    }
}

/// A path without its extension: everything before the last '.', unless that
/// leaves nothing (then the path itself).
pub open spec fn stem_of(p: Seq<char>) -> Seq<char> {
    let b = encode_utf8(p);
    match last_dot(b) {
        Some(i) => if i > 0 { decode_utf8(b.subrange(0, i)) } else { p },
        None => p,
    }
}

proof fn lemma_last_dot(b: Seq<u8>)
    ensures
        last_dot(b) matches Some(i) ==> 0 <= i < b.len() && b[i] == 46,
    decreases b.len(),
{
    if b.len() > 0 && b.last() != 46 {
        lemma_last_dot(b.drop_last());
    }
}

/// `path` without its extension.
pub fn strip_ext(path: &str) -> (s: String)
    ensures
        s@ == stem_of(path@),
{
    let b = path.as_bytes();
    let ghost bs = b@;
    proof {
        lemma_last_dot(bs);
        encode_utf8_valid_utf8(path@);
    }
    let mut i: usize = b.len();
    assert(bs.subrange(0, i as int) =~= bs);
    while i > 0 && b[i - 1] != 46
        invariant
            i <= b@.len(),
            bs == b@,
            last_dot(bs) == last_dot(bs.subrange(0, i as int)),
        decreases i,
    {
        proof {
            assert(bs.subrange(0, i as int).drop_last() =~= bs.subrange(0, i - 1));
        }
        i = i - 1;
    }
    if i == 0 {
        proof {
            assert(bs.subrange(0, 0) =~= Seq::<u8>::empty());
        }
        return String::from_str(path);
    }
    let dot = i - 1;
    proof {
        assert(bs.subrange(0, i as int).last() == 46);
        assert(last_dot(bs) == Some(dot as int));
    }
    if dot == 0 {
        return String::from_str(path);
    }
    proof {
        is_char_boundary_iff_not_is_continuation_byte(bs, dot as int);
    }
    let (stem, _) = path.split_at(dot);
    proof {
        encode_utf8_decode_utf8(stem@);
    }
    String::from_str(stem)
}

/// `k` underscores.
pub open spec fn unders(k: nat) -> Seq<char> {
    Seq::new(k, |i: int| '_')
}

/// Whether `s` followed by `k` underscores is the first such name not in `taken`.
pub open spec fn first_free(taken: Seq<Seq<char>>, s: Seq<char>, k: nat) -> bool {
    &&& !taken.contains(s + unders(k))
    &&& forall|j: nat| j < k ==> taken.contains(#[trigger] (s + unders(j)))
}

/// `s`, with underscores appended until no name in `taken` is the same.
pub open spec fn unique_name(taken: Seq<Seq<char>>, s: Seq<char>) -> Seq<char> {
    s + unders(choose|k: nat| first_free(taken, s, k))
}

/// The file stems of a group: each name sanitized and made unique against the
/// stems before it.
pub open spec fn group_stems(names: Seq<Seq<char>>) -> Seq<Seq<char>>
    decreases names.len(),
{
    if names.len() == 0 {
        seq![]
    } else {
        let prev = group_stems(names.drop_last());
        prev.push(unique_name(prev, sanitized(names.last())))
    }
}

/// How a group of output items is laid out: nothing, a single file named
/// after the source, or one file per item in a directory named after it.
pub enum GroupLayout {
    Empty,
    Single,
    Many(Vec<String>),
}

/// The layout of a group of items with the given names, each file getting the
/// extension `ext`.
pub open spec fn group_layout_of(names: Seq<Seq<char>>, ext: Seq<char>) -> Option<Seq<Seq<char>>> {
    if names.len() <= 1 {
        None
    } else {
        Some(group_stems(names).map_values(|n: Seq<char>| n + seq!['.'] + ext))
    }
}

proof fn lemma_unique_name(taken: Seq<Seq<char>>, s: Seq<char>, k: nat)
    requires
        first_free(taken, s, k),
    ensures
        unique_name(taken, s) == s + unders(k),
{
    let k2 = choose|k: nat| first_free(taken, s, k);
    assert(first_free(taken, s, k2));
    if k2 < k {
        assert(taken.contains(s + unders(k2)));
    } else if k < k2 {
        assert(taken.contains(s + unders(k)));
    }
}

fn contains_name(taken: &Vec<String>, n: &String) -> (b: bool)
    ensures
        b == taken@.map_values(|t: String| t@).contains(n@),
{
    let ghost tv = taken@.map_values(|t: String| t@);
    let mut i: usize = 0;
    while i < taken.len()
        invariant
            tv == taken@.map_values(|t: String| t@),
            i <= taken.len(),
            forall|j: int| 0 <= j < i ==> tv[j] != n@,
        decreases taken.len() - i,
    {
        if taken[i] == *n {
            assert(tv[i as int] == n@);
            return true;
        }
        i = i + 1;
    }
    false
}

/// The longest name in `t` (0 when empty).
pub open spec fn longest(t: Seq<Seq<char>>) -> nat
    decreases t.len(),
{
    if t.len() == 0 {
        0
    } else {
        let m = longest(t.drop_last());
        if t.last().len() > m { t.last().len() } else { m }
    }
}

proof fn lemma_longest(t: Seq<Seq<char>>, x: Seq<char>)
    requires
        t.contains(x),
    ensures
        x.len() <= longest(t),
    decreases t.len(),
{
    if t.last() != x {
        let j = choose|j: int| 0 <= j < t.len() && t[j] == x;
        assert(t.drop_last()[j] == x);
        lemma_longest(t.drop_last(), x);
    }
}

/// Lays out a group of output items: a single item stands alone; several are
/// written as one file each, named after the item (sanitized, and suffixed
/// with '_' until unique), with extension `ext`.
pub fn group_layout(names: &Vec<String>, ext: &str) -> (g: GroupLayout)
    ensures
        names.len() == 0 ==> g is Empty,
        names.len() == 1 ==> g is Single,
        names.len() > 1 ==> (g matches GroupLayout::Many(files) && files@.map_values(|f: String| f@)
            == group_layout_of(names@.map_values(|n: String| n@), ext@)->Some_0),
{
    if names.len() == 0 {
        return GroupLayout::Empty;
    }
    if names.len() == 1 {
        return GroupLayout::Single;
    }
    let ghost nv = names@.map_values(|n: String| n@);
    let mut taken: Vec<String> = Vec::new();
    let mut files: Vec<String> = Vec::new();
    let mut i: usize = 0;
    while i < names.len()
        invariant
            nv == names@.map_values(|n: String| n@),
            i <= names.len(),
            taken@.map_values(|t: String| t@) == group_stems(nv.take(i as int)),
            files@.map_values(|f: String| f@) == group_stems(nv.take(i as int)).map_values(|n: Seq<char>| n + seq!['.'] + ext@),
        decreases names.len() - i,
    {
        let ghost tv = taken@.map_values(|t: String| t@);
        let ghost fv = files@.map_values(|f: String| f@);
        let mut n = sanitize(names[i].as_str());
        let ghost base = n@;
        let ghost mx = longest(tv);
        let ghost mut k: nat = 0;
        while contains_name(&taken, &n)
            invariant
                tv == taken@.map_values(|t: String| t@),
                mx == longest(tv),
                n@ == base + unders(k),
                forall|j: nat| j < k ==> tv.contains(#[trigger] (base + unders(j))),
            decreases mx + 1 - n@.len(),
        {
            proof {
                lemma_longest(tv, n@);
                assert(tv.contains(base + unders(k)));
            }
            n.push('_');
            proof {
                assert(n@ =~= base + unders(k + 1));
                k = k + 1;
            }
        }
        proof {
            lemma_unique_name(tv, base, k);
            assert(nv.take(i + 1).drop_last() =~= nv.take(i as int));
            assert(nv.take(i + 1).last() == names@[i as int]@);
        }
        let mut f = n.clone();
        f.push('.');
        f.append(ext);
        assert(f@ =~= n@ + seq!['.'] + ext@);
        taken.push(n);
        files.push(f);
        proof {
            assert(taken@.map_values(|t: String| t@) =~= group_stems(nv.take(i + 1)));
            let gs = group_stems(nv.take(i + 1));
            assert(gs == group_stems(nv.take(i as int)).push(gs.last()));
            assert(files@.map_values(|f: String| f@) =~= fv.push(gs.last() + seq!['.'] + ext@));
            assert(fv.push(gs.last() + seq!['.'] + ext@) =~= gs.map_values(|n: Seq<char>| n + seq!['.'] + ext@));
        }
        i = i + 1;
    }
    assert(nv.take(names.len() as int) =~= nv);
    GroupLayout::Many(files)
}


/// Totals reported after a dump.
#[derive(Debug, Clone, Copy)]
pub struct DumpReport {
    pub models: usize,
    pub textures: usize,
    pub sprites: usize,
    pub bins: usize,
}

impl Default for DumpReport {
    fn default() -> (r: DumpReport)
        ensures
            r.models == 0 && r.textures == 0 && r.sprites == 0 && r.bins == 0,
    {
        DumpReport { models: 0, textures: 0, sprites: 0, bins: 0 }
    }
}

/// In-memory assets decoded at a single ROM path.
pub struct Assets {
    /// (name, self-contained GLB bytes).
    pub models: Vec<(String, Vec<u8>)>,
    /// (name, PNG bytes): textures and sprites.
    pub images: Vec<(String, Vec<u8>)>,
}

impl Default for Assets {
    fn default() -> (a: Assets)
        ensures
            a.models@.len() == 0 && a.images@.len() == 0,
    {
        Assets { models: Vec::new(), images: Vec::new() }
    }
}

/// Whether `s` is a Nitro 3D format (models, textures, animations).
pub open spec fn is_nitro3d(s: Signature) -> bool {
    s == Signature::Nsbmd || s == Signature::Nsbca || s == Signature::Nsbtp || s == Signature::Nsbta
        || s == Signature::Nsbma || s == Signature::Nsbva || s == Signature::Nsbtx
}

/// Whether `s` is a 2D graphics resource (palette, character set, cell bank).
pub open spec fn is_2d(s: Signature) -> bool {
    s == Signature::Nclr || s == Signature::Ncgr || s == Signature::Ncer
}

/// What the first `k` sub-files of an archive hold: (3D files, whether one is a
/// texture set, whether any is a 2D resource, unrecognised files).
pub open spec fn contents_upto(n: Narc, k: int) -> (Seq<int>, bool, bool, Seq<int>)
    decreases k,
{
    if k <= 0 {
        (seq![], false, false, seq![])
    } else {
        let c = contents_upto(n, k - 1);
        match entry_bytes(n.image(), n.entries(), k - 1) {
            Ok(f) => {
                let s = format_of(f);
                if is_nitro3d(s) {
                    (c.0.push(k - 1), c.1 || s == Signature::Nsbtx, c.2, c.3)
                } else if is_2d(s) {
                    (c.0, c.1, true, c.3)
                } else if s == Signature::Unknown {
                    (c.0, c.1, c.2, c.3.push(k - 1))
                } else {
                    c
                }
            },
            Err(_) => c,
        }
    }
}

/// How the sub-files of an archive are handled by the dump.
pub struct NarcContents {
    /// Sub-files in a Nitro 3D format, converted together.
    pub nitro3d: Vec<usize>,
    /// Whether one of them is a texture set.
    pub has_nsbtx: bool,
    /// Whether the archive holds 2D resources (sprites).
    pub has_2d: bool,
    /// Unrecognised sub-files, written out raw.
    pub unknown: Vec<usize>,
}

impl NarcContents {
    pub open spec fn model(&self) -> (Seq<int>, bool, bool, Seq<int>) {
        (self.nitro3d@.map_values(|i: usize| i as int), self.has_nsbtx, self.has_2d, self.unknown@.map_values(|i: usize| i as int))
    }
}

/// Sorts the sub-files of an archive by how the dump handles them.
pub fn narc_contents(narc: &Narc) -> (c: NarcContents)
    ensures
        c.model() == contents_upto(*narc, narc.entries().len() as int),
{
    let mut c = NarcContents { nitro3d: Vec::new(), has_nsbtx: false, has_2d: false, unknown: Vec::new() };
    let n = narc.file_count();
    let mut i: usize = 0;
    while i < n
        invariant
            n == narc.entries().len(),
            i <= n,
            c.model() == contents_upto(*narc, i as int),
        decreases n - i,
    {
        if let Ok(f) = narc.file(i) {
            let s = detect_signature(f);
            if s == Signature::Nsbmd || s == Signature::Nsbca || s == Signature::Nsbtp || s == Signature::Nsbta
                || s == Signature::Nsbma || s == Signature::Nsbva || s == Signature::Nsbtx {
                c.nitro3d.push(i);
                if s == Signature::Nsbtx {
                    c.has_nsbtx = true;
                }
            } else if s == Signature::Nclr || s == Signature::Ncgr || s == Signature::Ncer {
                c.has_2d = true;
            } else if s == Signature::Unknown {
                c.unknown.push(i);
            }
        }
        proof {
            assert(c.model() =~= contents_upto(*narc, i + 1));
        }
        i = i + 1;
    }
    c
}

/// The bytes of "pokegra".
pub open spec fn pokegra() -> Seq<u8> {
    seq![112u8, 111u8, 107u8, 101u8, 103u8, 114u8, 97u8]
}

/// Whether the mappings document `path` of the game `code` as a Pokémon sprite.
pub open spec fn known_sprite(ms: Seq<ManifestInfo>, code: Seq<char>, path: Seq<char>) -> bool {
    encode_utf8(code).len() >= 3 && match first_manifest_for(ms, decode_utf8(encode_utf8(code).subrange(0, 3))) {
        Some(i) => match first_file_at(ms[i].3, path) {
            Some(j) => ms[i].3[j].2 == "pokemon-sprite"@,
            None => false,
        },
        None => false,
    }
}

/// The cipher of the sprites at `path`: none unless the path is a documented
/// Pokémon sprite archive or a "pokegra" archive; then back-to-front for
/// Diamond/Pearl ("ADA", "APA") and front-to-back for the other games.
pub open spec fn sprite_cipher_of(ms: Seq<ManifestInfo>, code: Seq<char>, path: Seq<char>) -> SpriteCipher {
    let b = encode_utf8(code);
    if !(known_sprite(ms, code, path) || has_sub(encode_utf8(path), pokegra())) {
        SpriteCipher::Unencrypted
    } else if b.len() >= 3 && b[0] == 65 && (b[1] == 68 || b[1] == 80) && b[2] == 65 {
        SpriteCipher::BackToFront
    } else {
        SpriteCipher::FrontToBack
    }
}

/// The cipher of the sprites at `path` of the game `gamecode`.
pub fn sprite_cipher(manifests: &[GameManifest], gamecode: &str, path: &str) -> (c: SpriteCipher)
    requires
        gamecode.spec_bytes().len() >= 3 ==> vstd::utf8::is_char_boundary(gamecode.spec_bytes(), 3),
    ensures
        c == sprite_cipher_of(manifests@.map_values(|m: GameManifest| m@), gamecode@, path@),
{
    let ghost ms = manifests@.map_values(|m: GameManifest| m@);
    let known = match manifest_for_gamecode(manifests, gamecode) {
        Some(m) => {
            proof {
                lemma_first_manifest_bound(ms, code_prefix_of(gamecode));
            }
            match m.find(path) {
                Some(kf) => {
                    let want = String::from_str("pokemon-sprite");
                    kf.kind == want
                },
                None => false,
            }
        },
        None => false,
    };
    assert(known == known_sprite(ms, gamecode@, path@));
    let pat: [u8; 7] = [112, 111, 107, 101, 103, 114, 97];
    assert(pat@ =~= pokegra());
    if !(known || contains_bytes(path.as_bytes(), pat.as_slice())) {
        return SpriteCipher::Unencrypted;
    }
    let b = gamecode.as_bytes();
    if b.len() >= 3 && b[0] == 65 && (b[1] == 68 || b[1] == 80) && b[2] == 65 {
        SpriteCipher::BackToFront
    } else {
        SpriteCipher::FrontToBack
    }
}

/// The name given to the result of the `png` crate's encoder on an 8-bit RGBA image.
pub uninterp spec fn png_rgba8(width: u32, height: u32, data: Seq<u8>) -> Seq<u8>;

/// A 32-bit value in big-endian byte order.
pub open spec fn be32(v: u32) -> Seq<u8> {
    seq![(v / 0x100_0000) as u8, (v / 0x1_0000 % 0x100) as u8, (v / 0x100 % 0x100) as u8, (v % 0x100) as u8]
}

/// The PNG signature followed by the IHDR chunk's length, type and data for an
/// 8-bit RGBA image of the given size.
pub open spec fn png_head(w: u32, h: u32) -> Seq<u8> {
    seq![137u8, 80u8, 78u8, 71u8, 13u8, 10u8, 26u8, 10u8, 0u8, 0u8, 0u8, 13u8, 73u8, 72u8, 68u8, 82u8]
        + be32(w) + be32(h) + seq![8u8, 6u8, 0u8, 0u8, 0u8]
}

/// Whether a `w` x `h` RGBA image's byte count fits in memory.
pub open spec fn png_fits(w: u32, h: u32) -> bool {
    w * h * 4 <= usize::MAX
}

/// Encodes `data` as an 8-bit RGBA PNG with the `png` crate: `Encoder::new`,
/// `set_color(Rgba)`, `set_depth(Eight)`, `write_header`, then
/// `write_image_data`. The result is named `png_rgba8`; for a non-empty size
/// the crate writes the PNG signature and the IHDR chunk first (then the
/// image data, when its length matches the size, and the IEND chunk).
#[verifier::external_body]
fn png_encode(width: u32, height: u32, data: &[u8]) -> (out: Vec<u8>)
    requires
        width >= 1,
        height >= 1,
        png_fits(width, height),
    ensures
        out@ == png_rgba8(width, height, data@),
        out@.len() >= 29,
        out@.subrange(0, 29) == png_head(width, height),
{
    let mut buf = Vec::new();
    {
        let mut enc = png::Encoder::new(&mut buf, width, height);
        enc.set_color(png::ColorType::Rgba);
        enc.set_depth(png::BitDepth::Eight);
        if let Ok(mut w) = enc.write_header() {
            let _ = w.write_image_data(data);
        }
    }
    buf
}

/// `v`, or 1 when it is 0.
pub open spec fn at_least_one(v: u32) -> u32 {
    if v == 0 { 1 } else { v }
}

/// Encode an image to PNG bytes (an empty side counts as 1).
pub fn encode_png(img: &Image) -> (out: Vec<u8>)
    requires
        png_fits(at_least_one(img.width), at_least_one(img.height)),
    ensures
        out@ == png_rgba8(at_least_one(img.width), at_least_one(img.height), img.data@),
        out@.subrange(0, 29) == png_head(at_least_one(img.width), at_least_one(img.height)),
{
    let w = if img.width == 0 { 1 } else { img.width };
    let h = if img.height == 0 { 1 } else { img.height };
    png_encode(w, h, img.data.as_slice())
}


proof fn lemma_first_manifest_bound(ms: Seq<ManifestInfo>, p: Seq<char>)
    ensures
        first_manifest_for(ms, p) matches Some(i) ==> 0 <= i < ms.len() && ms[i].1 == p,
    decreases ms.len(),
{
    if ms.len() > 0 && ms[0].1 != p {
        lemma_first_manifest_bound(ms.drop_first(), p);
    }
}


/// The width and height of the picture sprite `s` describes.
pub open spec fn sprite_size(s: Sprite, r: Resources) -> (int, int) {
    if s.from_cell {
        let b = cell_box(r.banks[s.bank].1.1[s.cell]);
        (b.2 - b.0, b.3 - b.1)
    } else {
        (sheet_cols(r.chars[s.chars].1) * 8, sheet_rows(r.chars[s.chars].1) * 8)
    }
}

/// Whether every planned sprite can be encoded.
pub open spec fn pngs_fit(plan: Seq<Sprite>, r: Resources) -> bool {
    forall|i: int| 0 <= i < plan.len() ==> {
        let sz = sprite_size(#[trigger] plan[i], r);
        png_fits(at_least_one(sz.0 as u32), at_least_one(sz.1 as u32))
    }
}

/// Whether the sprites of the archive `d` can be decoded and encoded.
pub open spec fn sprites_ok(d: Seq<u8>, raw: bool, cipher: SpriteCipher) -> bool {
    forall|n: Narc| #[trigger] n.parsed_from(d) ==> {
        &&& sprites_readable(n)
        &&& sprites_fit(resources(n, cipher), raw, cipher)
        &&& pngs_fit(sprite_plan(resources(n, cipher), raw, cipher), resources(n, cipher))
    }
}

/// Whether `bytes` is the PNG encoding of the picture of sprite `s` (which
/// some image shows, and every image showing it has the same bytes).
pub open spec fn png_shows(bytes: Seq<u8>, s: Sprite, r: Resources) -> bool {
    &&& exists|img: Image| shows_sprite(img, s, r)
    &&& forall|img: Image| #[trigger] shows_sprite(img, s, r)
        ==> bytes == png_rgba8(at_least_one(img.width), at_least_one(img.height), img.data@)
}

/// Whether `out` holds the planned sprites, in order, as named PNG files.
pub open spec fn pngs_match(out: Seq<(String, Vec<u8>)>, plan: Seq<Sprite>, r: Resources) -> bool {
    &&& out.len() == plan.len()
    &&& forall|i: int| 0 <= i < out.len() ==> (#[trigger] out[i]).0@ == plan[i].name && png_shows(out[i].1@, plan[i], r)
}

/// Encodes decoded sprites as named PNG files.
fn encode_sprites(images: Vec<(String, Image)>, Ghost(plan): Ghost<Seq<Sprite>>, Ghost(r): Ghost<Resources>) -> (out: Vec<(String, Vec<u8>)>)
    requires
        sprites_match(images@, plan, r),
        pngs_fit(plan, r),
    ensures
        pngs_match(out@, plan, r),
{
    let mut out: Vec<(String, Vec<u8>)> = Vec::new();
    let mut images = images;
    let ghost all = images@;
    let mut i: usize = 0;
    let n = images.len();
    while i < n
        invariant
            n == all.len(),
            sprites_match(all, plan, r),
            pngs_fit(plan, r),
            i <= n,
            images@ == all,
            out@.len() == i,
            forall|j: int| 0 <= j < i ==> (#[trigger] out@[j]).0@ == plan[j].name && png_shows(out@[j].1@, plan[j], r),
        decreases n - i,
    {
        let name = images[i].0.clone();
        let img = &images[i].1;
        proof {
            assert(all[i as int].0@ == plan[i as int].name);
            assert(shows_sprite(all[i as int].1, plan[i as int], r));
            let sz = sprite_size(plan[i as int], r);
            assert(png_fits(at_least_one(sz.0 as u32), at_least_one(sz.1 as u32)));
        }
        let png = encode_png(img);
        proof {
            let sp = plan[i as int];
            assert(shows_sprite(*img, sp, r));
            assert forall|other: Image| #[trigger] shows_sprite(other, sp, r)
                implies png@ == png_rgba8(at_least_one(other.width), at_least_one(other.height), other.data@) by {
                lemma_sprite_image_unique(*img, other, sp, r);
            }
            assert(png_shows(png@, sp, r));
        }
        out.push((name, png));
        i = i + 1;
    }
    out
}

/// 3D files to hand to the model decoder: their bytes, and whether texture
/// PNGs are wanted should no model come out.
pub struct Nitro3dJob {
    pub buffers: Vec<Vec<u8>>,
    pub textures_if_no_models: bool,
}

/// What `assets_at_path` finds at a path holding the bytes `d`: the 3D files
/// and the texture flag, and the sprites (for an archive).
pub open spec fn path_assets(d: Seq<u8>, raw: bool, cipher: SpriteCipher) -> Option<(Seq<Seq<u8>>, bool, bool)> {
    if format_of(d) == Signature::Narc {
        match archive_model(d) {
            Err(_) => None,
            Ok(m) => {
                let image = d.subrange(m.0, m.1);
                let c = narc_kinds(image, m.2, m.2.len() as int);
                Some((c.0.map_values(|i: int| entry_bytes(image, m.2, i)->Ok_0), c.1, true))
            },
        }
    } else if format_of(d) == Signature::Nsbmd || format_of(d) == Signature::Nsbtx {
        Some((seq![d], true, false))
    } else {
        None
    }
}

/// The 3D files of the first `k` entries of an image, and whether one is a texture set.
pub open spec fn narc_kinds(image: Seq<u8>, entries: Seq<(u32, u32)>, k: int) -> (Seq<int>, bool)
    decreases k,
{
    if k <= 0 {
        (seq![], false)
    } else {
        let c = narc_kinds(image, entries, k - 1);
        match entry_bytes(image, entries, k - 1) {
            Ok(f) => if is_nitro3d(format_of(f)) {
                (c.0.push(k - 1), c.1 || format_of(f) == Signature::Nsbtx)
            } else {
                c
            },
            Err(_) => c,
        }
    }
}

proof fn lemma_narc_kinds(n: Narc, k: int)
    requires
        0 <= k,
    ensures
        narc_kinds(n.image(), n.entries(), k).0 == contents_upto(n, k).0,
        narc_kinds(n.image(), n.entries(), k).1 == contents_upto(n, k).1,
        forall|j: int| 0 <= j < contents_upto(n, k).0.len() ==> (entry_bytes(n.image(), n.entries(), #[trigger] contents_upto(n, k).0[j]) is Ok),
        forall|j: int| 0 <= j < contents_upto(n, k).0.len() ==> 0 <= #[trigger] contents_upto(n, k).0[j] < k,
    decreases k,
{
    if k > 0 {
        lemma_narc_kinds(n, k - 1);
        let c0 = contents_upto(n, k - 1).0;
        assert forall|j: int| 0 <= j < contents_upto(n, k).0.len() implies (entry_bytes(n.image(), n.entries(), #[trigger] contents_upto(n, k).0[j]) is Ok)
            && 0 <= contents_upto(n, k).0[j] < k by {
            if j < c0.len() {
                assert(contents_upto(n, k).0[j] == c0[j]);
            }
        }
    }
}

/// The bytes of the 3D files of an archive.
fn nitro3d_buffers(narc: &Narc, idx: &Vec<usize>) -> (out: Vec<Vec<u8>>)
    requires
        forall|j: int| 0 <= j < idx@.len() ==> (entry_bytes(narc.image(), narc.entries(), #[trigger] idx@[j] as int) is Ok),
    ensures
        out@.map_values(|b: Vec<u8>| b@) == idx@.map_values(|i: usize| entry_bytes(narc.image(), narc.entries(), i as int)->Ok_0),
{
    let mut out: Vec<Vec<u8>> = Vec::new();
    let mut j: usize = 0;
    while j < idx.len()
        invariant
            j <= idx@.len(),
            forall|j: int| 0 <= j < idx@.len() ==> (entry_bytes(narc.image(), narc.entries(), #[trigger] idx@[j] as int) is Ok),
            out@.map_values(|b: Vec<u8>| b@) == idx@.subrange(0, j as int).map_values(|i: usize| entry_bytes(narc.image(), narc.entries(), i as int)->Ok_0),
        decreases idx@.len() - j,
    {
        let f = match narc.file(idx[j]) {
            Ok(f) => f,
            Err(_) => {
                assert(false);
                &[]
            },
        };
        let ghost o0 = out@.map_values(|b: Vec<u8>| b@);
        out.push(vstd::slice::slice_to_vec(f));
        proof {
            assert(out@.map_values(|b: Vec<u8>| b@) =~= o0.push(f@));
            assert(f@ == entry_bytes(narc.image(), narc.entries(), idx@[j as int] as int)->Ok_0);
            assert(out@.map_values(|b: Vec<u8>| b@) =~= idx@.subrange(0, j + 1).map_values(|i: usize| entry_bytes(narc.image(), narc.entries(), i as int)->Ok_0));
        }
        j = j + 1;
    }
    assert(idx@.subrange(0, idx@.len() as int) =~= idx@);
    out
}

/// Decode the assets at `path` (an archive, or a standalone 3D file): the
/// sprites of an archive, encoded as PNG, and the 3D files for the model
/// decoder.
pub fn assets_at_path(rom: &Rom, manifests: &[GameManifest], path: &str, raw: bool) -> (r: (Assets, Nitro3dJob))
    requires
        path_file(*rom, path@) matches Some(d) ==> {
            &&& (format_of(d) == Signature::Narc && archive_model(d) is Ok) ==> (encode_utf8(rom.hdr().gamecode@).len() >= 3
                ==> vstd::utf8::is_char_boundary(encode_utf8(rom.hdr().gamecode@), 3))
            &&& sprites_ok(d, raw, sprite_cipher_of(manifests@.map_values(|m: GameManifest| m@), rom.hdr().gamecode@, path@))
        },
    ensures
        r.0.models@.len() == 0,
        match path_file(*rom, path@) {
            None => r.0.images@.len() == 0 && r.1.buffers@.len() == 0,
            Some(d) => match path_assets(d, raw, sprite_cipher_of(manifests@.map_values(|m: GameManifest| m@), rom.hdr().gamecode@, path@)) {
                None => r.0.images@.len() == 0 && r.1.buffers@.len() == 0,
                Some((bufs, tex, is_archive)) => {
                    &&& r.1.buffers@.map_values(|b: Vec<u8>| b@) == bufs
                    &&& r.1.textures_if_no_models == tex
                    &&& !is_archive ==> r.0.images@.len() == 0
                    &&& is_archive ==> forall|n: Narc| #[trigger] n.parsed_from(d) ==> {
                        let cipher = sprite_cipher_of(manifests@.map_values(|m: GameManifest| m@), rom.hdr().gamecode@, path@);
                        pngs_match(r.0.images@, sprite_plan(resources(n, cipher), raw, cipher), resources(n, cipher))
                    }
                },
            },
        },
{
    let mut a = Assets { models: Vec::new(), images: Vec::new() };
    let none = Nitro3dJob { buffers: Vec::new(), textures_if_no_models: false };
    let data = match rom.file_by_path(path) {
        Ok(d) => d,
        Err(_) => {
            return (a, none);
        },
    };
    if is_narc(data) {
        let narc = match Narc::parse(data) {
            Ok(n) => n,
            Err(_) => {
                return (a, none);
            },
        };
        let c = narc_contents(&narc);
        proof {
            lemma_narc_kinds(narc, narc.entries().len() as int);
            assert(forall|j: int| 0 <= j < c.nitro3d@.len() ==> #[trigger] c.nitro3d@[j] as int == c.model().0[j]);
        }
        let buffers = nitro3d_buffers(&narc, &c.nitro3d);
        let cipher = sprite_cipher(manifests, rom.header().gamecode.as_str(), path);
        let sprites = collect_sprites(&narc, raw, cipher);
        let ghost res = resources(narc, cipher);
        a.images = encode_sprites(sprites, Ghost(sprite_plan(res, raw, cipher)), Ghost(res));
        proof {
            let m = archive_model(data@)->Ok_0;
            assert(c.nitro3d@.map_values(|i: usize| entry_bytes(narc.image(), narc.entries(), i as int)->Ok_0)
                =~= narc_kinds(data@.subrange(m.0, m.1), m.2, m.2.len() as int).0.map_values(|i: int| entry_bytes(data@.subrange(m.0, m.1), m.2, i)->Ok_0));
            assert forall|n: Narc| #[trigger] n.parsed_from(data@) implies resources(n, cipher) == res by {
                lemma_resources_same(n, narc, cipher);
            }
        }
        return (a, Nitro3dJob { buffers, textures_if_no_models: c.has_nsbtx });
    }
    let s = detect_signature(data);
    if s == Signature::Nsbmd || s == Signature::Nsbtx {
        let mut buffers: Vec<Vec<u8>> = Vec::new();
        buffers.push(vstd::slice::slice_to_vec(data));
        proof {
            assert(buffers@.map_values(|b: Vec<u8>| b@) =~= seq![data@]);
        }
        return (a, Nitro3dJob { buffers, textures_if_no_models: true });
    }
    (a, none)
}


/// The relative path of ROM file `id`: its name, else "unnamed/" and the
/// zero-padded id.
pub open spec fn rom_rel_path(files: Seq<FileEntry>, id: u16) -> Seq<char> {
    match path_for_id(files, id) {
        Some(p) => p,
        None => joined("unnamed"@, '/', decimal_padded(id as nat, 5)),
    }
}

/// The 3D files among the first `k` ROM files outside any archive (non-empty
/// models and texture sets), each with its output path without extension.
pub open spec fn loose_upto(rom: Rom, k: int) -> Seq<(Seq<char>, u16)>
    decreases k,
{
    if k <= 0 {
        seq![]
    } else {
        let t = loose_upto(rom, k - 1);
        let id = (k - 1) as u16;
        match file_bytes(rom.bytes(), rom.fat(), id as int) {
            Ok(d) => if d.len() > 0 && format_of(d) != Signature::Narc
                && (format_of(d) == Signature::Nsbmd || format_of(d) == Signature::Nsbtx) {
                t.push((stem_of(rom_rel_path(rom.file_list(), id)), id))
            } else {
                t
            },
            Err(_) => t,
        }
    }
}

/// The standalone model and texture files of the ROM (those outside any
/// archive), with the path each is dumped under. Ids run over the file count
/// truncated to 16 bits.
pub fn loose_models(rom: &Rom) -> (out: Vec<(String, u16)>)
    ensures
        out@.map_values(|x: (String, u16)| (x.0@, x.1)) == loose_upto(*rom, (rom.fat().len() % 0x10000) as int),
{
    let count = (rom.file_count() % 0x10000) as u16;
    let files = rom.files();
    let mut out: Vec<(String, u16)> = Vec::new();
    let mut id: u16 = 0;
    while id < count
        invariant
            count == rom.fat().len() % 0x10000,
            crate::rom::file_entries(files@) == rom.file_list(),
            id <= count,
            out@.map_values(|x: (String, u16)| (x.0@, x.1)) == loose_upto(*rom, id as int),
        decreases count - id,
    {
        let ghost o0 = out@.map_values(|x: (String, u16)| (x.0@, x.1));
        if let Ok(data) = rom.file_by_id(id) {
            if data.len() > 0 && !is_narc(data) {
                let s = detect_signature(data);
                if s == Signature::Nsbmd || s == Signature::Nsbtx {
                    let rel = match path_of_id(files, id) {
                        Some(p) => p,
                        None => {
                            let mut u = String::from_str("unnamed");
                            u.push('/');
                            push_padded(&mut u, id as u64, 5);
                            proof {
                                reveal_strlit("unnamed");
                                assert(u@ =~= joined("unnamed"@, '/', decimal_padded(id as nat, 5)));
                            }
                            u
                        },
                    };
                    let base = strip_ext(rel.as_str());
                    out.push((base, id));
                    proof {
                        assert(out@.map_values(|x: (String, u16)| (x.0@, x.1)) =~= o0.push((stem_of(rom_rel_path(rom.file_list(), id)), id)));
                    }
                }
            }
        }
        proof {
            assert(out@.map_values(|x: (String, u16)| (x.0@, x.1)) =~= loose_upto(*rom, id + 1));
        }
        id = id + 1;
    }
    out
}

} // verus!
