//! Listing the ROM filesystem, annotated with the roles the game mappings
//! document.
use crate::bytes::{contains_bytes, has_sub};
use crate::mapping::{first_file_at, GameManifest, ManifestInfo};
use crate::rom::{FileEntry, Rom, RomFile};
use vstd::prelude::*;
use vstd::utf8::encode_utf8;

verus! {

/// One line of a listing: a file and, when documented, its role (kind and
/// description).
pub struct Listing {
    pub id: u16,
    pub path: String,
    pub role: Option<(String, String)>,
}

impl View for Listing {
    type V = (u16, Seq<char>, Option<(Seq<char>, Seq<char>)>);

    open spec fn view(&self) -> (u16, Seq<char>, Option<(Seq<char>, Seq<char>)>) {
        (self.id, self.path@, match self.role {
            Some((k, d)) => Some((k@, d@)),
            None => None,
        })
    }
}

/// The documented role of `path`: the kind and description of its first entry.
pub open spec fn role_of(m: Option<ManifestInfo>, path: Seq<char>) -> Option<(Seq<char>, Seq<char>)> {
    match m {
        Some(mi) => match first_file_at(mi.3, path) {
            Some(j) => Some((mi.3[j].2, mi.3[j].3)),
            None => None,
        },
        None => None,
    }
}

/// The lines for the files `fs`, keeping those whose path holds `filter`.
pub open spec fn listed(fs: Seq<FileEntry>, m: Option<ManifestInfo>, filter: Option<Seq<char>>) -> Seq<(u16, Seq<char>, Option<(Seq<char>, Seq<char>)>)>
    decreases fs.len(),
{
    if fs.len() == 0 {
        seq![]
    } else {
        let rest = listed(fs.drop_last(), m, filter);
        let (id, path) = fs.last();
        let keep = match filter {
            Some(sub) => has_sub(encode_utf8(path), encode_utf8(sub)),
            None => true,
        };
        if keep { rest.push((id, path, role_of(m, path))) } else { rest }
    }
}

proof fn lemma_first_file_bound(fs: Seq<(Seq<char>, Seq<char>, Seq<char>, Seq<char>)>, p: Seq<char>)
    ensures
        first_file_at(fs, p) matches Some(j) ==> 0 <= j < fs.len(),
    decreases fs.len(),
{
    if fs.len() > 0 && fs[0].0 != p {
        lemma_first_file_bound(fs.drop_first(), p);
    }
}

/// The named files of `rom` in id order whose path holds `filter` (all when
/// none is given), each with its documented role.
pub fn list_files(rom: &Rom, manifest: Option<&GameManifest>, filter: Option<&str>) -> (out: Vec<Listing>)
    ensures
        out@.map_values(|l: Listing| l@) == listed(
            rom.file_list(),
            match manifest {
                Some(m) => Some(m@),
                None => None,
            },
            match filter {
                Some(f) => Some(f@),
                None => None,
            },
        ),
{
    let ghost mi = match manifest {
        Some(m) => Some(m@),
        None => None,
    };
    let ghost fl = match filter {
        Some(f) => Some(f@),
        None => None,
    };
    let files: &[RomFile] = rom.files();
    let ghost fs = crate::rom::file_entries(files@);
    let mut out: Vec<Listing> = Vec::new();
    let mut i: usize = 0;
    while i < files.len()
        invariant
            fs == crate::rom::file_entries(files@),
            fs == rom.file_list(),
            mi == (match manifest {
                Some(m) => Some(m@),
                None => None,
            }),
            fl == (match filter {
                Some(f) => Some(f@),
                None => None,
            }),
            i <= files.len(),
            out@.map_values(|l: Listing| l@) == listed(fs.take(i as int), mi, fl),
        decreases files.len() - i,
    {
        let f = &files[i];
        let ghost o0 = out@.map_values(|l: Listing| l@);
        proof {
            assert(fs.take(i + 1).drop_last() =~= fs.take(i as int));
            assert(fs.take(i + 1).last() == (f.id, f.path@));
        }
        let keep = match filter {
            Some(sub) => contains_bytes(f.path.as_str().as_bytes(), sub.as_bytes()),
            None => true,
        };
        if keep {
            let role = match manifest {
                Some(m) => match m.find(f.path.as_str()) {
                    Some(kf) => {
                        proof {
                            lemma_first_file_bound(m@.3, f.path@);
                        }
                        Some((kf.kind.clone(), kf.description.clone()))
                    },
                    None => None,
                },
                None => None,
            };
            let line = Listing { id: f.id, path: f.path.clone(), role };
            assert(line@ == (f.id, f.path@, role_of(mi, f.path@)));
            out.push(line);
            proof {
                assert(out@.map_values(|l: Listing| l@) =~= o0.push(line@));
            }
        }
        i = i + 1;
    }
    assert(fs.take(files.len() as int) =~= fs);
    out
}

} // verus!
