//! Per-game mapping of the stripped `a/X/Y/Z` NARC paths to meaningful
//! names/roles. The mapping tables themselves are read by the application; this
//! module assembles and queries them.
use vstd::prelude::*;
use vstd::string::{StringExecFns, StringSliceAdditionalSpecFns};
use vstd::utf8::{decode_utf8, encode_utf8_decode_utf8};

verus! {

/// A documented file, recovering the meaning the ROM's stripped FNT no longer
/// provides. `kind` is a free-form role slug (e.g. "pokemon-sprite",
/// "field-model") that drives output organisation and sprite decryption.
pub struct KnownFile {
    pub path: String,
    pub label: String,
    pub kind: String,
    pub description: String,
}

/// A game a mapping table applies to.
pub struct GameEntry {
    pub id: String,
    pub code_prefix: String,
    pub display_name: String,
}

/// One mapping table: the games it covers and the files it documents.
pub struct MappingFile {
    pub games: Vec<GameEntry>,
    pub files: Vec<KnownFile>,
}

/// Known-file mapping for a single game (regional variants share one, matched on
/// the 3-char game code prefix).
pub struct GameManifest {
    pub id: String,
    pub code_prefix: String,
    pub display_name: String,
    pub files: Vec<KnownFile>,
}

/// A documented file as plain text: path, label, kind, description.
pub type FileInfo = (Seq<char>, Seq<char>, Seq<char>, Seq<char>);

impl View for KnownFile {
    type V = FileInfo;

    open spec fn view(&self) -> FileInfo {
        (self.path@, self.label@, self.kind@, self.description@)
    }
}

/// A manifest as plain text: id, code prefix, display name and files.
pub type ManifestInfo = (Seq<char>, Seq<char>, Seq<char>, Seq<FileInfo>);

impl View for GameManifest {
    type V = ManifestInfo;

    open spec fn view(&self) -> ManifestInfo {
        (self.id@, self.code_prefix@, self.display_name@, self.files@.map_values(|f: KnownFile| f@))
    }
}

/// Index of the first file documented under `path`.
pub open spec fn first_file_at(files: Seq<FileInfo>, path: Seq<char>) -> Option<int>
    decreases files.len(),
{
    if files.len() == 0 {
        None
    } else if files[0].0 == path {
        Some(0)
    } else {
        match first_file_at(files.drop_first(), path) {
            Some(i) => Some(i + 1),
            None => None,
        }
    }
}

/// The manifests a list of mapping tables yields: one per game, in order, each
/// carrying its table's files.
pub open spec fn manifests_of(sources: Seq<(Seq<(Seq<char>, Seq<char>, Seq<char>)>, Seq<FileInfo>)>) -> Seq<ManifestInfo>
    decreases sources.len(),
{
    if sources.len() == 0 {
        seq![]
    } else {
        let last = sources.last();
        manifests_of(sources.drop_last()) + last.0.map_values(|g: (Seq<char>, Seq<char>, Seq<char>)| (g.0, g.1, g.2, last.1))
    }
}

/// A mapping table as plain text.
pub open spec fn source_info(m: MappingFile) -> (Seq<(Seq<char>, Seq<char>, Seq<char>)>, Seq<FileInfo>) {
    (m.games@.map_values(|g: GameEntry| (g.id@, g.code_prefix@, g.display_name@)), m.files@.map_values(|f: KnownFile| f@))
}

/// The first three bytes of a game code, as text.
pub open spec fn code_prefix_of(code: &str) -> Seq<char> {
    decode_utf8(code.spec_bytes().subrange(0, 3))
}

/// Index of the first manifest whose code prefix is `p`.
pub open spec fn first_manifest_for(ms: Seq<ManifestInfo>, p: Seq<char>) -> Option<int>
    decreases ms.len(),
{
    if ms.len() == 0 {
        None
    } else if ms[0].1 == p {
        Some(0)
    } else {
        match first_manifest_for(ms.drop_first(), p) {
            Some(i) => Some(i + 1),
            None => None,
        }
    }
}

impl KnownFile {
    /// A field-by-field copy.
    pub fn copy(&self) -> (c: KnownFile)
        ensures
            c@ == self@,
    {
        KnownFile {
            path: self.path.clone(),
            label: self.label.clone(),
            kind: self.kind.clone(),
            description: self.description.clone(),
        }
    }
}

fn copy_files(files: &Vec<KnownFile>) -> (c: Vec<KnownFile>)
    ensures
        c@.map_values(|f: KnownFile| f@) == files@.map_values(|f: KnownFile| f@),
{
    let mut c: Vec<KnownFile> = Vec::with_capacity(files.len());
    let mut i: usize = 0;
    while i < files.len()
        invariant
            i <= files@.len(),
            c@.len() == i,
            forall|j: int| 0 <= j < i ==> (#[trigger] c@[j])@ == files@[j]@,
        decreases files@.len() - i,
    {
        c.push(files[i].copy());
        i = i + 1;
    }
    assert(c@.map_values(|f: KnownFile| f@) =~= files@.map_values(|f: KnownFile| f@));
    c
}

impl GameManifest {
    /// The first documented file with path `path`.
    pub fn find(&self, path: &str) -> (r: Option<&KnownFile>)
        ensures
            match first_file_at(self@.3, path@) {
                Some(i) => r matches Some(f) && f@ == self@.3[i],
                None => r is None,
            },
    {
        let target = String::from_str(path);
        let ghost fs = self@.3;
        assert(fs.subrange(0, fs.len() as int) =~= fs);
        let mut i: usize = 0;
        while i < self.files.len()
            invariant
                fs == self@.3,
                target@ == path@,
                i <= self.files@.len(),
                first_file_at(fs, path@) == match first_file_at(fs.subrange(i as int, fs.len() as int), path@) {
                    Some(j) => Some(j + i),
                    None => None,
                },
            decreases self.files@.len() - i,
        {
            proof {
                let t = fs.subrange(i as int, fs.len() as int);
                assert(t.drop_first() =~= fs.subrange(i + 1, fs.len() as int));
                assert(t[0] == self.files@[i as int]@);
            }
            if self.files[i].path == target {
                return Some(&self.files[i]);
            }
            i = i + 1;
        }
        None
    }
}

/// Builds one manifest per game listed by the mapping tables, in order.
pub fn manifests_from(sources: &Vec<MappingFile>) -> (out: Vec<GameManifest>)
    ensures
        out@.map_values(|m: GameManifest| m@) == manifests_of(sources@.map_values(|m: MappingFile| source_info(m))),
{
    let mut out: Vec<GameManifest> = Vec::new();
    let mut s: usize = 0;
    while s < sources.len()
        invariant
            s <= sources@.len(),
            out@.map_values(|m: GameManifest| m@)
                == manifests_of(sources@.subrange(0, s as int).map_values(|m: MappingFile| source_info(m))),
        decreases sources@.len() - s,
    {
        let src = &sources[s];
        let ghost before = out@.map_values(|m: GameManifest| m@);
        let ghost info = source_info(*src);
        let mut g: usize = 0;
        let ghost base = out@.len();
        while g < src.games.len()
            invariant
                g <= src.games@.len(),
                info == source_info(*src),
                base == before.len(),
                out@.len() == base + g,
                forall|j: int| 0 <= j < base ==> (#[trigger] out@[j])@ == before[j],
                forall|j: int| base <= j < base + g ==> (#[trigger] out@[j])@ == (info.0[j - base].0, info.0[j - base].1, info.0[j - base].2, info.1),
            decreases src.games@.len() - g,
        {
            let e = &src.games[g];
            out.push(GameManifest {
                id: e.id.clone(),
                code_prefix: e.code_prefix.clone(),
                display_name: e.display_name.clone(),
                files: copy_files(&src.files),
            });
            g = g + 1;
        }
        proof {
            assert(out@.map_values(|m: GameManifest| m@) =~= before + info.0.map_values(
                |e: (Seq<char>, Seq<char>, Seq<char>)| (e.0, e.1, e.2, info.1)));
            let all = sources@.subrange(0, s + 1).map_values(|m: MappingFile| source_info(m));
            assert(all.drop_last() =~= sources@.subrange(0, s as int).map_values(|m: MappingFile| source_info(m)));
        }
        s = s + 1;
    }
    assert(sources@.subrange(0, s as int) =~= sources@);
    out
}

/// Resolve the mapping for a 4-character game code (region byte ignored).
pub fn manifest_for_gamecode<'a>(manifests: &'a [GameManifest], gamecode: &str) -> (r: Option<&'a GameManifest>)
    requires
        gamecode.spec_bytes().len() >= 3 ==> vstd::utf8::is_char_boundary(gamecode.spec_bytes(), 3),
    ensures
        gamecode.spec_bytes().len() < 3 ==> r is None,
        gamecode.spec_bytes().len() >= 3 ==> match first_manifest_for(manifests@.map_values(|m: GameManifest| m@), code_prefix_of(gamecode)) {
            Some(i) => r matches Some(m) && m@ == manifests@[i]@,
            None => r is None,
        },
{
    let n = gamecode.as_bytes().len();
    if n < 3 {
        return None;
    }
    let (prefix, _) = gamecode.split_at(3);
    let target = String::from_str(prefix);
    proof {
        encode_utf8_decode_utf8(prefix@);
    }
    let ghost ms = manifests@.map_values(|m: GameManifest| m@);
    assert(ms.subrange(0, ms.len() as int) =~= ms);
    let mut i: usize = 0;
    while i < manifests.len()
        invariant
            ms == manifests@.map_values(|m: GameManifest| m@),
            gamecode.spec_bytes().len() >= 3,
            target@ == code_prefix_of(gamecode),
            i <= manifests@.len(),
            first_manifest_for(ms, target@) == match first_manifest_for(ms.subrange(i as int, ms.len() as int), target@) {
                Some(j) => Some(j + i),
                None => None,
            },
        decreases manifests@.len() - i,
    {
        proof {
            let t = ms.subrange(i as int, ms.len() as int);
            assert(t.drop_first() =~= ms.subrange(i + 1, ms.len() as int));
        }
        if manifests[i].code_prefix == target {
            return Some(&manifests[i]);
        }
        i = i + 1;
    }
    None
}

} // verus!
