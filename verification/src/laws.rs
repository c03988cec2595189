//! Properties that hold across the library's operations.
use crate::blz::{blz_compressed, blz_decoded};
use crate::cg::{decrypted, SpriteCipher};
use crate::dump::{first_free, group_layout_of, group_stems, longest, name_char_ok, sanitized, safe_char, unders, unique_name};
use crate::mapping::{code_prefix_of, first_manifest_for, ManifestInfo};
use crate::overworld::building_key_of;
use crate::rom::{insert_by_id, sort_by_id, FileEntry, Rom};
use crate::sheet::{root_from, rounded_root};
use crate::signature::{format_of, lemma_format_of_stamp, stamp, Signature};
use vstd::prelude::*;
use vstd::string::StringSliceAdditionalSpecFns;

verus! {

/// Whether `s` is in id order.
pub open spec fn id_sorted(s: Seq<FileEntry>) -> bool {
    forall|i: int, j: int| 0 <= i < j < s.len() ==> s[i].0 <= s[j].0
}

proof fn lemma_insert_sorted(s: Seq<FileEntry>, x: FileEntry)
    requires
        id_sorted(s),
    ensures
        id_sorted(insert_by_id(s, x)),
        insert_by_id(s, x).len() == s.len() + 1,
        forall|i: int| 0 <= i < insert_by_id(s, x).len() ==> (#[trigger] insert_by_id(s, x)[i] == x || s.contains(insert_by_id(s, x)[i])),
    decreases s.len(),
{
    if s.len() > 0 && s.last().0 > x.0 {
        let t = s.drop_last();
        lemma_insert_sorted(t, x);
        let r = insert_by_id(t, x);
        assert forall|i: int| 0 <= i < r.len() implies (#[trigger] r[i]).0 <= s.last().0 by {
            if r[i] != x {
                let j = choose|j: int| 0 <= j < t.len() && t[j] == r[i];
                assert(s[j] == t[j]);
            }
        }
        assert forall|i: int| 0 <= i < r.push(s.last()).len() implies (#[trigger] r.push(s.last())[i] == x || s.contains(r.push(s.last())[i])) by {
            if i < r.len() && r[i] != x {
                let j = choose|j: int| 0 <= j < t.len() && t[j] == r[i];
                assert(s[j] == t[j]);
            } else if i == r.len() {
                assert(s[s.len() - 1] == s.last());
            }
        }
    } else if s.len() > 0 {
        assert forall|i: int| 0 <= i < s.push(x).len() implies (#[trigger] s.push(x)[i] == x || s.contains(s.push(x)[i])) by {
            if i < s.len() {
                assert(s[i] == s.push(x)[i]);
            }
        }
    }
}

proof fn lemma_sort_sorted(s: Seq<FileEntry>)
    ensures
        id_sorted(sort_by_id(s)),
    decreases s.len(),
{
    if s.len() > 0 {
        lemma_sort_sorted(s.drop_last());
        lemma_insert_sorted(sort_by_id(s.drop_last()), s.last());
    }
}

/// The named files of a loaded ROM come in id order.
pub proof fn law_files_sorted_by_id(rom: Rom, d: Seq<u8>)
    requires
        rom.loaded_from(d),
    ensures
        id_sorted(rom.file_list()),
{
    let h = rom.hdr();
    let fnt = h.fnt_offset as int;
    if h.fnt_size < 8 || fnt > d.len() || h.fnt_size > d.len() - fnt {
    } else {
        let n = crate::bytes::le16(d, fnt + 6);
        if n == 0 || n * 8 > h.fnt_size {
        } else {
            let dirs = crate::rom::link_all(d, fnt, crate::rom::dir_records(d, fnt, n as nat), 0, n);
            let fs = crate::rom::files_all(d, fnt, dirs, 0, seq![])->Some_0;
            lemma_sort_sorted(fs);
        }
    }
}

/// The name table, whenever it can be walked, lists its files in id order
/// (what the ROM loader's name-table reader returns).
pub proof fn law_name_table_sorted(d: Seq<u8>, h: crate::rom::RomHeader)
    ensures
        crate::rom::name_table(d, h) matches Some(fs) ==> id_sorted(fs),
{
    let fnt = h.fnt_offset as int;
    if h.fnt_size < 8 || fnt > d.len() || h.fnt_size > d.len() - fnt {
    } else {
        let n = crate::bytes::le16(d, fnt + 6);
        if n == 0 || n * 8 > h.fnt_size {
        } else {
            let dirs = crate::rom::link_all(d, fnt, crate::rom::dir_records(d, fnt, n as nat), 0, n);
            if let Some(fs) = crate::rom::files_all(d, fnt, dirs, 0, seq![]) {
                lemma_sort_sorted(fs);
            }
        }
    }
}

/// A file that starts with the stamp of a recognised format is detected as
/// that format, whatever follows.
pub proof fn law_stamp_detected(sig: Signature, rest: Seq<u8>)
    requires
        sig != Signature::Unknown,
    ensures
        format_of(stamp(sig) + rest) == sig,
{
    lemma_format_of_stamp(sig);
    assert(stamp(sig).len() == 4);
    assert((stamp(sig) + rest).subrange(0, 4) =~= stamp(sig));
}

/// Data that is not BLZ-compressed decodes to itself.
pub proof fn law_uncompressed_unchanged(d: Seq<u8>)
    requires
        !blz_compressed(d),
    ensures
        blz_decoded(d) == d,
{
}

/// Sprite data that is not enciphered is left as it is.
pub proof fn law_plain_sprites_unchanged(d: Seq<u8>)
    ensures
        decrypted(d, SpriteCipher::Unencrypted) == d,
{
}

/// A sanitized name holds only characters that may stand in a file name, is
/// never empty, and sanitizing it again changes nothing.
pub proof fn law_sanitize_stable(name: Seq<char>)
    ensures
        sanitized(name).len() > 0,
        forall|i: int| 0 <= i < sanitized(name).len() ==> name_char_ok(#[trigger] sanitized(name)[i]),
        sanitized(sanitized(name)) == sanitized(name),
{
    let s = sanitized(name);
    assert(s.map_values(|c: char| safe_char(c)) =~= s);
}

proof fn lemma_first_free_from(taken: Seq<Seq<char>>, s: Seq<char>, j: nat)
    requires
        forall|i: nat| i < j ==> taken.contains(#[trigger] (s + unders(i))),
    ensures
        exists|k: nat| first_free(taken, s, k),
    decreases longest(taken) + 1 - (s.len() + j),
{
    if !taken.contains(s + unders(j)) {
        assert(first_free(taken, s, j));
    } else {
        lemma_longest_bound(taken, s + unders(j));
        assert forall|i: nat| i < j + 1 implies taken.contains(#[trigger] (s + unders(i))) by {}
        lemma_first_free_from(taken, s, j + 1);
    }
}

proof fn lemma_longest_bound(t: Seq<Seq<char>>, x: Seq<char>)
    requires
        t.contains(x),
    ensures
        x.len() <= longest(t),
    decreases t.len(),
{
    if t.last() != x {
        let j = choose|j: int| 0 <= j < t.len() && t[j] == x;
        assert(t.drop_last()[j] == x);
        lemma_longest_bound(t.drop_last(), x);
    }
}

proof fn lemma_stems_distinct(names: Seq<Seq<char>>)
    ensures
        group_stems(names).len() == names.len(),
        forall|i: int, j: int| 0 <= i < j < group_stems(names).len() ==> group_stems(names)[i] != group_stems(names)[j],
    decreases names.len(),
{
    if names.len() > 0 {
        let prev = group_stems(names.drop_last());
        lemma_stems_distinct(names.drop_last());
        let s = sanitized(names.last());
        lemma_first_free_from(prev, s, 0);
        assert(!prev.contains(unique_name(prev, s)));
        let all = group_stems(names);
        assert forall|i: int, j: int| 0 <= i < j < all.len() implies all[i] != all[j] by {
            if j == prev.len() {
                assert(all[i] == prev[i]);
            } else {
                assert(all[i] == prev[i] && all[j] == prev[j]);
            }
        }
    }
}

/// When a group is written as several files, their names are all different.
pub proof fn law_group_files_distinct(names: Seq<Seq<char>>, ext: Seq<char>)
    requires
        names.len() > 1,
    ensures
        ({
            let files = group_layout_of(names, ext)->Some_0;
            &&& files.len() == names.len()
            &&& forall|i: int, j: int| 0 <= i < j < files.len() ==> files[i] != files[j]
        }),
{
    lemma_stems_distinct(names);
    let stems = group_stems(names);
    let files = group_layout_of(names, ext)->Some_0;
    assert forall|i: int, j: int| 0 <= i < j < files.len() implies files[i] != files[j] by {
        if files[i] == files[j] {
            let a = stems[i];
            let b = stems[j];
            assert(files[i] == a + seq!['.'] + ext);
            assert(files[j] == b + seq!['.'] + ext);
            assert((a + seq!['.'] + ext).len() == (b + seq!['.'] + ext).len());
            assert(a.len() == b.len());
            assert forall|t: int| 0 <= t < a.len() implies a[t] == b[t] by {
                assert(files[i][t] == files[j][t]);
            }
            assert(a =~= b);
        }
    }
}

/// Distinct (prop archive, model) pairs get distinct building keys.
pub proof fn law_building_keys_distinct(a1: u16, m1: u16, a2: u16, m2: u16)
    ensures
        building_key_of(a1, m1) == building_key_of(a2, m2) ==> a1 == a2 && m1 == m2,
{
    assert(a1 as int * 0x10000 + m1 as int <= u32::MAX);
    assert(a2 as int * 0x10000 + m2 as int <= u32::MAX);
    if building_key_of(a1, m1) == building_key_of(a2, m2) {
        let k = a1 as int * 0x10000 + m1 as int;
        assert(k == a2 as int * 0x10000 + m2 as int);
        assert(a1 as int == k / 0x10000 && m1 as int == k % 0x10000);
        assert(a2 as int == k / 0x10000 && m2 as int == k % 0x10000);
    }
}

/// Valid UTF-8 that agrees with other valid UTF-8 in its first `k` bytes has
/// a character boundary at `k` when the other one has.
proof fn lemma_boundary_from_prefix(u: Seq<u8>, v: Seq<u8>, k: int)
    requires
        vstd::utf8::valid_utf8(u),
        vstd::utf8::valid_utf8(v),
        0 <= k <= u.len(),
        k <= v.len(),
        u.subrange(0, k) == v.subrange(0, k),
        vstd::utf8::is_char_boundary(u, k),
    ensures
        vstd::utf8::is_char_boundary(v, k),
    decreases u.len(),
{
    if k > 0 {
        assert(u[0] == u.subrange(0, k)[0]);
        assert(v[0] == v.subrange(0, k)[0]);
        let l = vstd::utf8::length_of_first_scalar(u);
        assert(l == vstd::utf8::length_of_first_scalar(v));
        let pu = vstd::utf8::pop_first_scalar(u);
        let pv = vstd::utf8::pop_first_scalar(v);
        assert(vstd::utf8::valid_utf8(pu));
        assert(vstd::utf8::valid_utf8(pv));
        assert(vstd::utf8::is_char_boundary(pu, k - l));
        assert(0 < l <= k);
        assert(pu.subrange(0, k - l) =~= pv.subrange(0, k - l)) by {
            assert forall|i: int| 0 <= i < k - l implies pu[i] == pv[i] by {
                assert(pu[i] == u.subrange(0, k)[i + l]);
                assert(pv[i] == v.subrange(0, k)[i + l]);
            }
        }
        lemma_boundary_from_prefix(pu, pv, k - l);
    }
}

/// The game manifest found for a game code depends on its first three bytes
/// only: the region byte is ignored, and a code whose first three bytes can be
/// cut from it gives every code with the same first three bytes that cut too.
pub proof fn law_region_byte_ignored(ms: Seq<ManifestInfo>, c1: &str, c2: &str)
    requires
        c1.spec_bytes().len() >= 3,
        c2.spec_bytes().len() >= 3,
        c1.spec_bytes().subrange(0, 3) == c2.spec_bytes().subrange(0, 3),
    ensures
        first_manifest_for(ms, code_prefix_of(c1)) == first_manifest_for(ms, code_prefix_of(c2)),
        vstd::utf8::is_char_boundary(c1.spec_bytes(), 3) ==> vstd::utf8::is_char_boundary(c2.spec_bytes(), 3),
{
    vstd::utf8::encode_utf8_valid_utf8(c1@);
    vstd::utf8::encode_utf8_valid_utf8(c2@);
    if vstd::utf8::is_char_boundary(c1.spec_bytes(), 3) {
        lemma_boundary_from_prefix(c1.spec_bytes(), c2.spec_bytes(), 3);
    }
}

proof fn lemma_root_from(n: int, k: int)
    requires
        1 <= n,
        0 <= k,
        k == 0 || (k - 1) * (k - 1) + (k - 1) < n,
    ensures
        root_from(n, k) * root_from(n, k) - root_from(n, k) < n <= root_from(n, k) * root_from(n, k) + root_from(n, k),
    decreases n - k,
{
    if k >= n || k * k + k >= n {
        assert(k * k - k < n <= k * k + k) by (nonlinear_arith)
            requires
                1 <= n,
                0 <= k,
                k == 0 || (k - 1) * (k - 1) + (k - 1) < n,
                k >= n || k * k + k >= n,
        ;
    } else {
        lemma_root_from(n, k + 1);
    }
}

/// The near-square sheet width is the integer nearest the square root of the
/// tile count: `k * k - k < n <= k * k + k`, that is `(k - 1/2)^2 < n < (k + 1/2)^2`.
pub proof fn law_rounded_root_nearest(n: int)
    requires
        1 <= n,
    ensures
        rounded_root(n) * rounded_root(n) - rounded_root(n) < n <= rounded_root(n) * rounded_root(n) + rounded_root(n),
{
    lemma_root_from(n, 0);
}

} // verus!
