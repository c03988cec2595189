//! Recursive traversal of a ROM filesystem, descending into NARC archives.
use crate::narc::{archive_model, entry_bytes, Narc};
use crate::rom::{file_bytes, FileEntry, Rom, RomFile};
use crate::signature::{detect_signature, extension_text, format_of, is_narc, signature_extension, stamp, Signature};
use crate::text::{decimal_padded, push_padded};
use vstd::prelude::*;
use vstd::string::StringExecFns;

verus! {

/// Deepest archive nesting that is descended into.
pub const MAX_DEPTH: u32 = 8;

/// Totals reported after a recursive dump.
#[derive(Default, Debug)]
pub struct DumpStats {
    pub files: usize,
    pub containers: usize,
    pub bytes: u64,
}

/// The path of the last named file with id `id` (later names of one id replace earlier ones).
pub open spec fn path_for_id(files: Seq<FileEntry>, id: u16) -> Option<Seq<char>>
    decreases files.len(),
{
    if files.len() == 0 {
        None
    } else if files.last().0 == id {
        Some(files.last().1)
    } else {
        path_for_id(files.drop_last(), id)
    }
}

/// Whether `d` starts with the NARC stamp.
pub open spec fn is_archive(d: Seq<u8>) -> bool {
    format_of(d) == Signature::Narc
}

/// `a`, then `sep`, then `b`.
pub open spec fn joined(a: Seq<char>, sep: char, b: Seq<char>) -> Seq<char> {
    a + seq![sep] + b
}

/// The name given to sub-file `i` of an archive at `rel` when it has no name:
/// its index, zero-padded to five digits, with the extension of its format.
pub open spec fn unnamed_child(rel: Seq<char>, i: int, child: Seq<u8>) -> Seq<char> {
    joined(rel, '/', joined(decimal_padded(i as nat, 5), '.', extension_text(format_of(child))))
}

/// The path of sub-file `i` of an archive at `rel`.
pub open spec fn child_path(rel: Seq<char>, names: Seq<Option<Seq<char>>>, i: int, child: Seq<u8>) -> Seq<char> {
    if 0 <= i < names.len() && names[i] is Some {
        joined(rel, '/', names[i]->0)
    } else {
        unnamed_child(rel, i, child)
    }
}

/// The leaves visited under blob `d` at `rel`: the blob itself, or (when
/// expanding, below the depth limit, and it is a readable archive) the leaves
/// of each readable sub-file in order.
pub open spec fn blob_visits(d: Seq<u8>, rel: Seq<char>, depth: int, expand: bool) -> Seq<(Seq<char>, Seq<u8>)>
    decreases 8 - depth, 1int, 0int,
{
    if expand && 0 <= depth < 8 && is_archive(d) && archive_model(d) is Ok {
        let m = archive_model(d)->Ok_0;
        child_visits(d, rel, depth, expand, 0, m.2.len() as int)
    } else {
        seq![(rel, d)]
    }
}

/// The leaves under sub-files `i..n` of the archive `d` at `rel`.
pub open spec fn child_visits(d: Seq<u8>, rel: Seq<char>, depth: int, expand: bool, i: int, n: int) -> Seq<(Seq<char>, Seq<u8>)>
    decreases 8 - depth, 0int, n - i,
{
    if i >= n || !(0 <= depth < 8) || !(archive_model(d) is Ok) {
        seq![]
    } else {
        let m = archive_model(d)->Ok_0;
        let image = d.subrange(m.0, m.1);
        let here = match entry_bytes(image, m.2, i) {
            Ok(child) => blob_visits(child, child_path(rel, m.3, i, child), depth + 1, expand),
            Err(_) => seq![],
        };
        here + child_visits(d, rel, depth, expand, i + 1, n)
    }
}

/// The path a top-level file is visited under.
pub open spec fn top_path(files: Seq<FileEntry>, id: u16, d: Seq<u8>, expand: bool) -> Seq<char> {
    match path_for_id(files, id) {
        Some(p) => if (!expand || !is_archive(d)) && format_of(d) != Signature::Unknown {
            joined(p, '.', extension_text(format_of(d)))
        } else {
            p
        },
        None => joined("unnamed"@, '/', joined(decimal_padded(id as nat, 5), '.', extension_text(format_of(d)))),
    }
}

/// The leaves visited for files `id..count` of the ROM.
pub open spec fn rom_visits(rom: Rom, expand: bool, id: int, count: int) -> Seq<(Seq<char>, Seq<u8>)>
    decreases count - id,
{
    if id >= count || id < 0 {
        seq![]
    } else {
        let here = match file_bytes(rom.bytes(), rom.fat(), id) {
            Ok(d) => if d.len() == 0 {
                seq![]
            } else {
                blob_visits(d, top_path(rom.file_list(), id as u16, d, expand), 0, expand)
            },
            Err(_) => seq![],
        };
        here + rom_visits(rom, expand, id + 1, count)
    }
}

/// Number of file ids visited: the table size taken as a 16-bit count.
pub open spec fn visited_count(rom: Rom) -> int {
    rom.fat().len() as int % 65536
}

/// The visits as plain values.
pub open spec fn visits_view(v: Seq<(String, &[u8])>) -> Seq<(Seq<char>, Seq<u8>)> {
    v.map_values(|e: (String, &[u8])| (e.0@, e.1@))
}

/// The path of the last named file with id `id`.
pub(crate) fn path_of_id(files: &[RomFile], id: u16) -> (r: Option<String>)
    ensures
        match path_for_id(crate::rom::file_entries(files@), id) {
            Some(p) => r matches Some(s) && s@ == p,
            None => r is None,
        },
{
    let ghost fs = crate::rom::file_entries(files@);
    assert(fs.subrange(0, fs.len() as int) =~= fs);
    let mut i: usize = files.len();
    while i > 0
        invariant
            i <= files@.len(),
            fs == crate::rom::file_entries(files@),
            path_for_id(fs, id) == path_for_id(fs.subrange(0, i as int), id),
        decreases i,
    {
        proof {
            assert(fs.subrange(0, i as int).drop_last() =~= fs.subrange(0, i - 1));
        }
        if files[i - 1].id == id {
            return Some(files[i - 1].path.clone());
        }
        i = i - 1;
    }
    None
}

fn push_str(s: &mut String, t: &str)
    ensures
        final(s)@ == old(s)@ + t@,
{
    s.append(t);
}

/// `rel/n`.
fn join_name(rel: &String, n: &str) -> (s: String)
    ensures
        s@ == joined(rel@, '/', n@),
{
    let mut s = rel.clone();
    s.push('/');
    push_str(&mut s, n);
    assert(s@ =~= joined(rel@, '/', n@));
    s
}

/// `rel/NNNNN.ext` for sub-file `i`.
fn unnamed_path(rel: &String, i: u64, child: &[u8]) -> (s: String)
    ensures
        s@ == joined(rel@, '/', joined(decimal_padded(i as nat, 5), '.', extension_text(format_of(child@)))),
{
    let mut s = rel.clone();
    s.push('/');
    push_padded(&mut s, i, 5);
    s.push('.');
    push_str(&mut s, signature_extension(detect_signature(child)));
    assert(s@ =~= joined(rel@, '/', joined(decimal_padded(i as nat, 5), '.', extension_text(format_of(child@)))));
    s
}

fn walk_blob<'a>(data: &'a [u8], rel: String, depth: u32, expand: bool, out: &mut Vec<(String, &'a [u8])>)
    requires
        depth <= 8,
    ensures
        visits_view(final(out)@) == visits_view(old(out)@) + blob_visits(data@, rel@, depth as int, expand),
    decreases 8 - depth, 1int, 0int,
{
    if expand && depth < MAX_DEPTH && is_narc(data) {
        if let Ok(narc) = Narc::parse(data) {
            let n = narc.file_count();
            let mut i: usize = 0;
            let ghost start = visits_view(out@);
            while i < n
                invariant
                    n == narc.entries().len(),
                    narc.parsed_from(data@),
                    archive_model(data@) is Ok,
                    depth < 8,
                    expand,
                    i <= n,
                    visits_view(out@) + child_visits(data@, rel@, depth as int, expand, i as int, n as int)
                        == start + child_visits(data@, rel@, depth as int, expand, 0, n as int),
                decreases n - i,
            {
                let ghost before = visits_view(out@);
                match narc.file(i) {
                    Ok(child) => {
                        let child_rel = match narc.name(i) {
                            Some(name) => join_name(&rel, name),
                            None => unnamed_path(&rel, i as u64, child),
                        };
                        walk_child(child, child_rel, depth + 1, expand, out);
                    },
                    Err(_) => {},
                }
                proof {
                    assert(visits_view(out@) + child_visits(data@, rel@, depth as int, expand, (i + 1) as int, n as int)
                        =~= before + child_visits(data@, rel@, depth as int, expand, i as int, n as int));
                }
                i = i + 1;
            }
            proof {
                assert(child_visits(data@, rel@, depth as int, expand, n as int, n as int) =~= Seq::<(Seq<char>, Seq<u8>)>::empty());
                assert(visits_view(out@) =~= start + child_visits(data@, rel@, depth as int, expand, 0, n as int));
            }
            return;
        }
    }
    let ghost before = visits_view(out@);
    out.push((rel, data));
    assert(visits_view(out@) =~= before + seq![(rel@, data@)]);
}

fn walk_child<'a>(data: &'a [u8], rel: String, depth: u32, expand: bool, out: &mut Vec<(String, &'a [u8])>)
    requires
        1 <= depth <= 8,
    ensures
        visits_view(final(out)@) == visits_view(old(out)@) + blob_visits(data@, rel@, depth as int, expand),
    decreases 8 - depth + 1, 0int, 0int,
{
    walk_blob(data, rel, depth, expand, out)
}

/// Every leaf (non-container) file with its logical path, descending into NARCs
/// when `expand` is set.
pub fn walk_rom<'a>(rom: &'a Rom, expand: bool) -> (out: Vec<(String, &'a [u8])>)
    ensures
        visits_view(out@) == rom_visits(*rom, expand, 0, visited_count(*rom)),
{
    let mut out: Vec<(String, &'a [u8])> = Vec::new();
    let count = (rom.file_count() % 65536) as u16;
    let files = rom.files();
    let mut id: u16 = 0;
    let ghost goal = rom_visits(*rom, expand, 0, count as int);
    assert(visits_view(out@) =~= Seq::<(Seq<char>, Seq<u8>)>::empty());
    while id < count
        invariant
            crate::rom::file_entries(files@) == rom.file_list(),
            count == visited_count(*rom),
            goal == rom_visits(*rom, expand, 0, count as int),
            visits_view(out@) + rom_visits(*rom, expand, id as int, count as int) == goal,
        decreases count - id,
    {
        let ghost before = visits_view(out@);
        match rom.file_by_id(id) {
            Ok(data) => {
                if data.len() > 0 {
                    let rel = match path_of_id(files, id) {
                        Some(p) => {
                            if !expand || !is_narc(data) {
                                let sig = detect_signature(data);
                                if sig != Signature::Unknown {
                                    let mut s = p;
                                    s.push('.');
                                    push_str(&mut s, signature_extension(sig));
                                    s
                                } else {
                                    p
                                }
                            } else {
                                p
                            }
                        },
                        None => {
                            let base = String::from_str("unnamed");
                            proof {
                                reveal_strlit("unnamed");
                            }
                            unnamed_path(&base, id as u64, data)
                        },
                    };
                    proof {
                        reveal_strlit("unnamed");
                        assert(rel@ == top_path(rom.file_list(), id, data@, expand)) by {
                            if path_for_id(rom.file_list(), id) is Some {
                                let p = path_for_id(rom.file_list(), id)->0;
                                assert(joined(p, '.', extension_text(format_of(data@))) =~= p + seq!['.'] + extension_text(format_of(data@)));
                            }
                        }
                    }
                    walk_blob(data, rel, 0, expand, &mut out);
                }
            },
            Err(_) => {},
        }
        proof {
            assert(visits_view(out@) + rom_visits(*rom, expand, id + 1, count as int)
                =~= before + rom_visits(*rom, expand, id as int, count as int));
        }
        id = id + 1;
    }
    proof {
        assert(visits_view(out@) =~= goal);
    }
    out
}

/// The archive sub-files of archive `d` (at `rel`) among its first `i`
/// sub-files, with the paths they are visited under.
pub open spec fn archive_kids(d: Seq<u8>, rel: Seq<char>, i: int) -> Seq<(Seq<u8>, Seq<char>)>
    decreases i,
{
    if i <= 0 || !(archive_model(d) is Ok) {
        seq![]
    } else {
        let m = archive_model(d)->Ok_0;
        let k = i - 1;
        let here = match entry_bytes(d.subrange(m.0, m.1), m.2, k) {
            Ok(c) => if is_archive(c) {
                let p = if 0 <= k < m.3.len() && m.3[k] is Some {
                    joined(rel, '/', m.3[k]->0)
                } else {
                    joined(rel, '/', decimal_padded(k as nat, 5))
                };
                seq![(c, p)]
            } else {
                seq![]
            },
            Err(_) => seq![],
        };
        archive_kids(d, rel, k) + here
    }
}

/// The archives visited under blob `d` at `rel`: `d` itself when it is a
/// readable archive below the depth limit, then, recursively, those under its
/// archive sub-files.
pub open spec fn archive_visits(d: Seq<u8>, rel: Seq<char>, depth: int) -> Seq<(Seq<char>, Seq<u8>)>
    decreases 8 - depth, 1int, 0int,
{
    if !(0 <= depth < 8) || !is_archive(d) || !(archive_model(d) is Ok) {
        seq![]
    } else {
        let ks = archive_kids(d, rel, archive_model(d)->Ok_0.2.len() as int);
        seq![(rel, d)] + kid_archive_visits(ks, depth, ks.len() as int)
    }
}

/// The archives under the first `k` kids (visited one level deeper).
pub open spec fn kid_archive_visits(ks: Seq<(Seq<u8>, Seq<char>)>, depth: int, k: int) -> Seq<(Seq<char>, Seq<u8>)>
    decreases 8 - depth, 0int, k,
{
    if k <= 0 || k > ks.len() || !(0 <= depth < 8) {
        seq![]
    } else {
        kid_archive_visits(ks, depth, k - 1) + archive_visits(ks[k - 1].0, ks[k - 1].1, depth + 1)
    }
}

/// The archives visited for files `id..count` of the ROM.
pub open spec fn rom_archive_visits(rom: Rom, id: int, count: int) -> Seq<(Seq<char>, Seq<u8>)>
    decreases count - id,
{
    if id >= count || id < 0 {
        seq![]
    } else {
        let here = match file_bytes(rom.bytes(), rom.fat(), id) {
            Ok(d) => if is_archive(d) {
                let rel = match path_for_id(rom.file_list(), id as u16) {
                    Some(p) => p,
                    None => joined("unnamed"@, '/', decimal_padded(id as nat, 5)),
                };
                archive_visits(d, rel, 0)
            } else {
                seq![]
            },
            Err(_) => seq![],
        };
        here + rom_archive_visits(rom, id + 1, count)
    }
}

/// Whether `out` lists exactly the archives `want`, each parsed from its bytes.
pub open spec fn archives_match(out: Seq<(String, Narc)>, want: Seq<(Seq<char>, Seq<u8>)>) -> bool {
    &&& out.len() == want.len()
    &&& forall|i: int| 0 <= i < out.len() ==> (#[trigger] out[i]).0@ == want[i].0 && out[i].1.parsed_from(want[i].1)
}

proof fn lemma_match_concat(a: Seq<(String, Narc)>, b: Seq<(String, Narc)>, x: Seq<(Seq<char>, Seq<u8>)>, y: Seq<(Seq<char>, Seq<u8>)>)
    requires
        archives_match(a, x),
        archives_match(b, y),
    ensures
        archives_match(a + b, x + y),
{
    assert forall|i: int| 0 <= i < (a + b).len() implies (#[trigger] (a + b)[i]).0@ == (x + y)[i].0
        && (a + b)[i].1.parsed_from((x + y)[i].1) by {
        if i >= a.len() {
            assert((a + b)[i] == b[i - a.len()]);
        }
    }
}

fn walk_narc_blob<'a>(data: &'a [u8], rel: String, depth: u32, out: &mut Vec<(String, Narc<'a>)>)
    requires
        depth <= 8,
    ensures
        final(out)@.len() >= old(out)@.len(),
        final(out)@.subrange(0, old(out)@.len() as int) == old(out)@,
        archives_match(final(out)@.subrange(old(out)@.len() as int, final(out)@.len() as int),
            archive_visits(data@, rel@, depth as int)),
    decreases 8 - depth, 1int, 0int,
{
    let ghost o0 = out@;
    if depth >= MAX_DEPTH || !is_narc(data) {
        assert(out@.subrange(0, o0.len() as int) =~= o0);
        assert(out@.subrange(o0.len() as int, out@.len() as int) =~= Seq::<(String, Narc)>::empty());
        return;
    }
    let narc = match Narc::parse(data) {
        Ok(n) => n,
        Err(_) => {
            assert(out@.subrange(0, o0.len() as int) =~= o0);
            assert(out@.subrange(o0.len() as int, out@.len() as int) =~= Seq::<(String, Narc)>::empty());
            return;
        },
    };
    let n = narc.file_count();
    let mut kids: Vec<(&'a [u8], String)> = Vec::new();
    let mut i: usize = 0;
    while i < n
        invariant
            n == narc.entries().len(),
            narc.parsed_from(data@),
            archive_model(data@) is Ok,
            i <= n,
            kids@.map_values(|e: (&[u8], String)| (e.0@, e.1@)) == archive_kids(data@, rel@, i as int),
        decreases n - i,
    {
        if let Ok(child) = narc.file(i) {
            if is_narc(child) {
                let child_rel = match narc.name(i) {
                    Some(name) => join_name(&rel, name),
                    None => {
                        let mut s = rel.clone();
                        s.push('/');
                        push_padded(&mut s, i as u64, 5);
                        assert(s@ =~= joined(rel@, '/', decimal_padded(i as nat, 5)));
                        s
                    },
                };
                kids.push((child, child_rel));
            }
        }
        i = i + 1;
        assert(kids@.map_values(|e: (&[u8], String)| (e.0@, e.1@)) =~= archive_kids(data@, rel@, i as int));
    }
    let ghost ks = archive_kids(data@, rel@, n as int);
    out.push((rel.clone(), narc));
    proof {
        assert(out@.subrange(0, o0.len() as int) =~= o0);
        assert(archives_match(out@.subrange(o0.len() as int, out@.len() as int), seq![(rel@, data@)]));
        assert(kid_archive_visits(ks, depth as int, 0) =~= Seq::<(Seq<char>, Seq<u8>)>::empty());
        assert(seq![(rel@, data@)] + kid_archive_visits(ks, depth as int, 0) =~= seq![(rel@, data@)]);
    }
    let mut k: usize = 0;
    while k < kids.len()
        invariant
            depth < 8,
            ks == archive_kids(data@, rel@, n as int),
            kids@.map_values(|e: (&[u8], String)| (e.0@, e.1@)) == ks,
            k <= kids@.len(),
            out@.len() > o0.len(),
            out@.subrange(0, o0.len() as int) == o0,
            archives_match(out@.subrange(o0.len() as int, out@.len() as int),
                seq![(rel@, data@)] + kid_archive_visits(ks, depth as int, k as int)),
        decreases kids@.len() - k,
    {
        let ghost o1 = out@;
        let (child, child_rel) = (kids[k].0, kids[k].1.clone());
        assert(ks[k as int] == (child@, child_rel@));
        walk_narc_blob(child, child_rel, depth + 1, out);
        proof {
            assert(out@.subrange(0, o1.len() as int) == o1);
            assert(out@.subrange(0, o0.len() as int) =~= o0) by {
                assert(out@.subrange(0, o0.len() as int) =~= o1.subrange(0, o0.len() as int));
            }
            let a = o1.subrange(o0.len() as int, o1.len() as int);
            let b = out@.subrange(o1.len() as int, out@.len() as int);
            lemma_match_concat(a, b, seq![(rel@, data@)] + kid_archive_visits(ks, depth as int, k as int),
                archive_visits(child@, child_rel@, depth + 1));
            assert(out@.subrange(o0.len() as int, out@.len() as int) =~= a + b);
            assert(seq![(rel@, data@)] + kid_archive_visits(ks, depth as int, k + 1) =~=
                seq![(rel@, data@)] + kid_archive_visits(ks, depth as int, k as int) + archive_visits(child@, child_rel@, depth + 1));
        }
        k = k + 1;
    }
}

/// Every NARC archive in the ROM (including nested ones) with its parsed
/// contents, in visiting order.
pub fn walk_narcs<'a>(rom: &'a Rom) -> (out: Vec<(String, Narc<'a>)>)
    ensures
        archives_match(out@, rom_archive_visits(*rom, 0, visited_count(*rom))),
{
    let mut out: Vec<(String, Narc<'a>)> = Vec::new();
    let count = (rom.file_count() % 65536) as u16;
    let files = rom.files();
    let mut id: u16 = 0;
    let ghost goal = rom_archive_visits(*rom, 0, count as int);
    assert(goal =~= Seq::<(Seq<char>, Seq<u8>)>::empty() + rom_archive_visits(*rom, 0, count as int));
    assert(archives_match(out@, Seq::<(Seq<char>, Seq<u8>)>::empty()));
    while id < count
        invariant
            crate::rom::file_entries(files@) == rom.file_list(),
            count == visited_count(*rom),
            goal == rom_archive_visits(*rom, 0, count as int),
            exists|done: Seq<(Seq<char>, Seq<u8>)>| archives_match(out@, done)
                && done + rom_archive_visits(*rom, id as int, count as int) == goal,
        decreases count - id,
    {
        let ghost o1 = out@;
        let ghost done = choose|done: Seq<(Seq<char>, Seq<u8>)>| archives_match(out@, done)
            && done + rom_archive_visits(*rom, id as int, count as int) == goal;
        let ghost mut here_visits: Seq<(Seq<char>, Seq<u8>)> = seq![];
        match rom.file_by_id(id) {
            Ok(data) => {
                if is_narc(data) {
                    let rel = match path_of_id(files, id) {
                        Some(p) => p,
                        None => {
                            let mut s = String::from_str("unnamed");
                            s.push('/');
                            push_padded(&mut s, id as u64, 5);
                            proof {
                                reveal_strlit("unnamed");
                                assert(s@ =~= joined("unnamed"@, '/', decimal_padded(id as nat, 5)));
                            }
                            s
                        },
                    };
                    proof {
                        here_visits = archive_visits(data@, rel@, 0);
                    }
                    walk_narc_blob(data, rel, 0, &mut out);
                } else {
                    assert(out@.subrange(o1.len() as int, out@.len() as int) =~= Seq::<(String, Narc)>::empty());
                }
            },
            Err(_) => {
                assert(out@.subrange(o1.len() as int, out@.len() as int) =~= Seq::<(String, Narc)>::empty());
            },
        }
        proof {
            assert(out@.subrange(0, o1.len() as int) == o1);
            let b = out@.subrange(o1.len() as int, out@.len() as int);
            assert(archives_match(b, here_visits));
            lemma_match_concat(o1, b, done, here_visits);
            assert(out@ =~= o1 + b);
            assert(done + here_visits + rom_archive_visits(*rom, id + 1, count as int) =~= goal);
        }
        id = id + 1;
    }
    proof {
        let done = choose|done: Seq<(Seq<char>, Seq<u8>)>| archives_match(out@, done)
            && done + rom_archive_visits(*rom, id as int, count as int) == goal;
        assert(done =~= goal);
    }
    out
}

} // verus!
