//! Nintendo DS ROM image: header, File Allocation Table and reconstructed File
//! Name Table.
use crate::bytes::{le16, le16_exec, le32, le32_exec, until_nul};
use crate::error::Error;
use crate::text::{lossy_text, push_text, str_at};
use vstd::prelude::*;
use vstd::string::StringExecFns;

verus! {

/// Size of the DS cartridge header.
pub const HEADER_SIZE: usize = 0x200;

/// Selected fields from the DS cartridge header.
#[derive(Clone, Debug)]
pub struct RomHeader {
    pub title: String,
    pub gamecode: String,
    pub makercode: String,
    pub unit_code: u8,
    pub rom_size_used: u32,
    pub fnt_offset: u32,
    pub fnt_size: u32,
    pub fat_offset: u32,
    pub fat_size: u32,
    pub arm9_offset: u32,
    pub arm9_size: u32,
}

/// A file discovered in the ROM filesystem: numeric id plus reconstructed path.
#[derive(Clone, Debug)]
pub struct RomFile {
    pub id: u16,
    pub path: String,
}

/// A file as an (id, path) pair of plain values.
pub type FileEntry = (u16, Seq<char>);

/// The plain (id, path) view of a list of files.
pub open spec fn file_entries(v: Seq<RomFile>) -> Seq<FileEntry> {
    v.map_values(|f: RomFile| (f.id, f.path@))
}

/// The text of the fixed, NUL-padded field of `len` bytes at `at`.
pub open spec fn field_text(d: Seq<u8>, at: int, len: int) -> Seq<char> {
    lossy_text(until_nul(d.subrange(at, at + len)))
}

/// Whether `h` holds the header fields stored in `d`.
pub open spec fn header_matches(h: RomHeader, d: Seq<u8>) -> bool {
    &&& h.title@ == field_text(d, 0x00, 12)
    &&& h.gamecode@ == field_text(d, 0x0C, 4)
    &&& h.makercode@ == field_text(d, 0x10, 2)
    &&& h.unit_code == d[0x12]
    &&& h.fnt_offset == le32(d, 0x40)
    &&& h.fnt_size == le32(d, 0x44)
    &&& h.fat_offset == le32(d, 0x48)
    &&& h.fat_size == le32(d, 0x4C)
    &&& h.rom_size_used == le32(d, 0x80)
    &&& h.arm9_offset == le32(d, 0x20)
    &&& h.arm9_size == le32(d, 0x2C)
}

/// Why the header of `d` is unusable, if it is.
pub open spec fn header_error(d: Seq<u8>) -> Option<Error> {
    if d.len() < 0x200 {
        Some(Error::TooSmall)
    } else {
        let fo = le32(d, 0x48);
        let fs = le32(d, 0x4C);
        if fo > d.len() || fs > d.len() - fo || fs % 8 != 0 {
            Some(Error::InvalidFat)
        } else {
            None
        }
    }
}

/// The (start, end) pairs of the File Allocation Table.
pub open spec fn fat_of(d: Seq<u8>, h: RomHeader) -> Seq<(u32, u32)> {
    Seq::new((h.fat_size / 8) as nat, |i: int|
        (le32(d, h.fat_offset + 8 * i) as u32, le32(d, h.fat_offset + 8 * i + 4) as u32))
}

/// A directory of the name table: subtable offset, first file id, name and
/// parent index (-1 when no entry names it).
pub type Dir = (u32, u16, Seq<char>, int);

/// The directory records as stored, before any names are attached.
pub open spec fn dir_records(d: Seq<u8>, fnt: int, n: nat) -> Seq<Dir> {
    Seq::new(n, |i: int| (le32(d, fnt + 8 * i) as u32, le16(d, fnt + 8 * i + 4) as u16, Seq::<char>::empty(), -1int))
}

/// Walks the entries of directory `i`'s subtable from `pos`, naming each
/// sub-directory it lists and recording `i` as its parent.
pub open spec fn link_scan(d: Seq<u8>, dirs: Seq<Dir>, i: int, pos: int) -> Seq<Dir>
    decreases d.len() - pos,
{
    if pos < 0 || pos >= d.len() || d[pos] == 0 {
        dirs
    } else {
        let n = (d[pos] % 128) as int;
        let p = pos + 1;
        if p + n > d.len() {
            dirs
        } else if d[pos] < 128 {
            link_scan(d, dirs, i, p + n)
        } else if p + n + 2 > d.len() {
            dirs
        } else {
            let idx = le16(d, p + n) % 4096;
            let dirs2 = if idx < dirs.len() {
                dirs.update(idx, (dirs[idx].0, dirs[idx].1, field_text(d, p, n), i))
            } else {
                dirs
            };
            link_scan(d, dirs2, i, p + n + 2)
        }
    }
}

/// Links the sub-directories listed by directories `i..n`, in order.
pub open spec fn link_all(d: Seq<u8>, fnt: int, dirs: Seq<Dir>, i: int, n: int) -> Seq<Dir>
    decreases n - i,
{
    if i >= n || i >= dirs.len() {
        dirs
    } else {
        link_all(d, fnt, link_scan(d, dirs, i, fnt + dirs[i].0), i + 1, n)
    }
}

/// `name` in front of a relative path (just `name` when the path is empty).
pub open spec fn prepend_dir(name: Seq<char>, path: Seq<char>) -> Seq<char> {
    if path.len() == 0 { name } else { name + seq!['/'] + path }
}

/// `name` below a directory prefix (just `name` at the root).
pub open spec fn below(prefix: Seq<char>, name: Seq<char>) -> Seq<char> {
    if prefix.len() == 0 { name } else { prefix + seq!['/'] + name }
}

/// The path of directory `cur` with `acc` appended, following parents for at
/// most `fuel` steps; `None` when the parent chain does not end within them.
pub open spec fn path_walk(dirs: Seq<Dir>, cur: int, acc: Seq<char>, fuel: nat) -> Option<Seq<char>>
    decreases fuel,
{
    if !(0 < cur < dirs.len()) {
        Some(acc)
    } else if fuel == 0 {
        None
    } else {
        path_walk(dirs, dirs[cur].3, prepend_dir(dirs[cur].2, acc), (fuel - 1) as nat)
    }
}

/// The files named by a subtable from `pos`, numbered from `id`; `None` when
/// numbering would pass 65535.
pub open spec fn file_scan(d: Seq<u8>, prefix: Seq<char>, id: int, pos: int, acc: Seq<FileEntry>) -> Option<Seq<FileEntry>>
    decreases d.len() - pos,
{
    if pos < 0 || pos >= d.len() || d[pos] == 0 {
        Some(acc)
    } else {
        let n = (d[pos] % 128) as int;
        let p = pos + 1;
        if p + n > d.len() {
            Some(acc)
        } else if d[pos] >= 128 {
            if p + n + 2 > d.len() { Some(acc) } else { file_scan(d, prefix, id, p + n + 2, acc) }
        } else if id + 1 > 0xFFFF {
            None
        } else {
            file_scan(d, prefix, id + 1, p + n, acc.push((id as u16, below(prefix, field_text(d, p, n)))))
        }
    }
}

/// The files of directories `i..n`, in directory order.
pub open spec fn files_all(d: Seq<u8>, fnt: int, dirs: Seq<Dir>, i: int, acc: Seq<FileEntry>) -> Option<Seq<FileEntry>>
    decreases dirs.len() - i,
{
    if i < 0 || i >= dirs.len() {
        Some(acc)
    } else {
        match path_walk(dirs, i, seq![], dirs.len()) {
            None => None,
            Some(prefix) => match file_scan(d, prefix, dirs[i].1 as int, fnt + dirs[i].0, acc) {
                None => None,
                Some(acc2) => files_all(d, fnt, dirs, i + 1, acc2),
            },
        }
    }
}

/// `x` placed after every entry of the id-sorted `s` whose id is not larger.
pub open spec fn insert_by_id(s: Seq<FileEntry>, x: FileEntry) -> Seq<FileEntry>
    decreases s.len(),
{
    if s.len() == 0 {
        seq![x]
    } else if s.last().0 <= x.0 {
        s.push(x)
    } else {
        insert_by_id(s.drop_last(), x).push(s.last())
    }
}

/// `s` stably sorted by id.
pub open spec fn sort_by_id(s: Seq<FileEntry>) -> Seq<FileEntry>
    decreases s.len(),
{
    if s.len() == 0 { s } else { insert_by_id(sort_by_id(s.drop_last()), s.last()) }
}

/// The files named by the name table of `d`; `None` when a directory's parent
/// chain never reaches the root or a file id would pass 65535.
pub open spec fn name_table(d: Seq<u8>, h: RomHeader) -> Option<Seq<FileEntry>> {
    let fnt = h.fnt_offset as int;
    if h.fnt_size < 8 || fnt > d.len() || h.fnt_size > d.len() - fnt {
        Some(seq![])
    } else {
        let n = le16(d, fnt + 6);
        if n == 0 || n * 8 > h.fnt_size {
            Some(seq![])
        } else {
            let dirs = link_all(d, fnt, dir_records(d, fnt, n as nat), 0, n);
            match files_all(d, fnt, dirs, 0, seq![]) {
                Some(fs) => Some(sort_by_id(fs)),
                None => None,
            }
        }
    }
}

/// Whether `Rom::from_bytes` can handle `d`: either its header is refused, or
/// its name table can be walked.
pub open spec fn loadable(d: Seq<u8>) -> bool {
    header_error(d) is Some || (forall|h: RomHeader| header_matches(h, d) ==> name_table(d, h) is Some)
}

/// A parsed DS ROM with access to its internal filesystem.
pub struct Rom {
    data: Vec<u8>,
    header: RomHeader,
    fat: Vec<(u32, u32)>,
    files: Vec<RomFile>,
}

impl Rom {
    /// The image bytes.
    pub closed spec fn bytes(&self) -> Seq<u8> {
        self.data@
    }

    /// The parsed header.
    pub closed spec fn hdr(&self) -> RomHeader {
        self.header
    }

    /// The File Allocation Table.
    pub closed spec fn fat(&self) -> Seq<(u32, u32)> {
        self.fat@
    }

    /// The named files, sorted by id.
    pub closed spec fn file_list(&self) -> Seq<FileEntry> {
        file_entries(self.files@)
    }

    /// Whether this ROM is the parse of `d`.
    pub open spec fn loaded_from(&self, d: Seq<u8>) -> bool {
        &&& self.bytes() == d
        &&& header_error(d) is None
        &&& header_matches(self.hdr(), d)
        &&& self.fat() == fat_of(d, self.hdr())
        &&& name_table(d, self.hdr()) == Some(self.file_list())
    }

    /// Parses a ROM image.
    pub fn from_bytes(data: Vec<u8>) -> (r: Result<Rom, Error>)
        requires
            loadable(data@),
        ensures
            match header_error(data@) {
                Some(e) => r == Err::<Rom, Error>(e),
                None => r matches Ok(rom) && rom.loaded_from(data@),
            },
    {
        let header = match parse_header(&data) {
            Ok(h) => h,
            Err(e) => {
                return Err(e);
            },
        };
        let fat = parse_fat(&data, &header);
        let files = match parse_fnt(&data, &header) {
            Some(f) => f,
            None => {
                proof {
                    assert(header_matches(header, data@));
                }
                return Err(Error::InvalidFat);
            },
        };
        Ok(Rom { data, header, fat, files })
    }

    /// Whether `from_bytes` accepts `data` as input (its name table, if the
    /// header is usable, can be walked without looping or overflowing file ids).
    pub fn can_load(data: &[u8]) -> (b: bool)
        ensures
            b == (header_error(data@) is Some || name_table_of(data@) is Some),
            b == loadable(data@),
    {
        match parse_header(data) {
            Err(_) => true,
            Ok(h) => {
                let r = parse_fnt(data, &h);
                proof {
                    assert forall|h2: RomHeader| header_matches(h2, data@) implies name_table(data@, h2)
                        == name_table(data@, h) by {
                        lemma_name_table_fields(data@, h, h2);
                    }
                    lemma_name_table_fields(data@, h, some_header(data@));
                }
                r.is_some()
            },
        }
    }

    pub fn header(&self) -> (h: &RomHeader)
        ensures
            *h == self.hdr(),
    {
        &self.header
    }

    /// Number of entries in the File Allocation Table.
    pub fn file_count(&self) -> (n: usize)
        ensures
            n == self.fat().len(),
    {
        self.fat.len()
    }

    /// The named files, sorted by id.
    pub fn files(&self) -> (f: &[RomFile])
        ensures
            file_entries(f@) == self.file_list(),
    {
        self.files.as_slice()
    }

    /// The raw (possibly BLZ-compressed) arm9 binary.
    pub fn arm9(&self) -> (a: &[u8])
        ensures
            a@ == arm9_bytes(self.bytes(), self.hdr()),
    {
        let start = self.header.arm9_offset as usize;
        let size = self.header.arm9_size as usize;
        let end = if size > usize::MAX - start { usize::MAX } else { start + size };
        let end = if end < self.data.len() { end } else { self.data.len() };
        if start <= end {
            &self.data.as_slice()[start..end]
        } else {
            &[]
        }
    }

    /// The bytes of file `id`.
    pub fn file_by_id(&self, id: u16) -> (r: Result<&[u8], Error>)
        ensures
            match file_bytes(self.bytes(), self.fat(), id as int) {
                Ok(b) => r matches Ok(s) && s@ == b,
                Err(e) => r == Err::<&[u8], Error>(e),
            },
    {
        if id as usize >= self.fat.len() {
            return Err(Error::FileIdOutOfRange);
        }
        let (start, end) = self.fat[id as usize];
        let (start, end) = (start as usize, end as usize);
        if start > self.data.len() || end > self.data.len() || end < start {
            return Err(Error::EntryOutsideRom);
        }
        Ok(&self.data.as_slice()[start..end])
    }

    /// The id of the first named file with path `path`.
    pub fn id_for_path(&self, path: &str) -> (r: Option<u16>)
        ensures
            r == first_id_with_path(self.file_list(), path@),
    {
        let target = String::from_str(path);
        proof {
            assert(self.file_list().subrange(0, self.file_list().len() as int) =~= self.file_list());
        }
        let mut i: usize = 0;
        while i < self.files.len()
            invariant
                i <= self.files@.len(),
                target@ == path@,
                first_id_with_path(self.file_list(), path@)
                    == first_id_with_path(self.file_list().subrange(i as int, self.file_list().len() as int), path@),
            decreases self.files.len() - i,
        {
            let f = &self.files[i];
            proof {
                let s = self.file_list().subrange(i as int, self.file_list().len() as int);
                assert(s[0] == (f.id, f.path@));
                assert(s.drop_first() =~= self.file_list().subrange(i + 1, self.file_list().len() as int));
            }
            if f.path == target {
                return Some(f.id);
            }
            i = i + 1;
        }
        None
    }

    /// The bytes of the first file named `path`.
    pub fn file_by_path(&self, path: &str) -> (r: Result<&[u8], Error>)
        ensures
            match first_id_with_path(self.file_list(), path@) {
                None => r == Err::<&[u8], Error>(Error::NoSuchFile),
                Some(id) => match file_bytes(self.bytes(), self.fat(), id as int) {
                    Ok(b) => r matches Ok(s) && s@ == b,
                    Err(e) => r == Err::<&[u8], Error>(e),
                },
            },
    {
        match self.id_for_path(path) {
            None => Err(Error::NoSuchFile),
            Some(id) => self.file_by_id(id),
        }
    }
}

/// The bytes of the first file of `rom` named `p`.
pub open spec fn path_file(rom: Rom, p: Seq<char>) -> Option<Seq<u8>> {
    match first_id_with_path(rom.file_list(), p) {
        None => None,
        Some(id) => match file_bytes(rom.bytes(), rom.fat(), id as int) {
            Ok(b) => Some(b),
            Err(_) => None,
        },
    }
}

/// A header holding the fields of `d` (when `d` has one).
pub open spec fn some_header(d: Seq<u8>) -> RomHeader {
    choose|h: RomHeader| header_matches(h, d)
}

/// The name table of `d`, read with its own header.
pub open spec fn name_table_of(d: Seq<u8>) -> Option<Seq<FileEntry>> {
    name_table(d, some_header(d))
}

/// The name table depends only on the header's numeric fields.
proof fn lemma_name_table_fields(d: Seq<u8>, h1: RomHeader, h2: RomHeader)
    requires
        header_matches(h1, d),
        header_matches(h2, d),
    ensures
        name_table(d, h1) == name_table(d, h2),
        exists|h: RomHeader| header_matches(h, d),
{
}

/// The arm9 bytes the header points at, clipped to the image.
pub open spec fn arm9_bytes(d: Seq<u8>, h: RomHeader) -> Seq<u8> {
    let start = h.arm9_offset as int;
    let end = if start + h.arm9_size > d.len() { d.len() as int } else { start + h.arm9_size };
    if start <= end { d.subrange(start, end) } else { seq![] }
}

/// File `id` of an image with the given allocation table.
pub open spec fn file_bytes(d: Seq<u8>, fat: Seq<(u32, u32)>, id: int) -> Result<Seq<u8>, Error> {
    if id < 0 || id >= fat.len() {
        Err(Error::FileIdOutOfRange)
    } else {
        let (s, e) = fat[id];
        if s > d.len() || e > d.len() || e < s {
            Err(Error::EntryOutsideRom)
        } else {
            Ok(d.subrange(s as int, e as int))
        }
    }
}

/// The id of the first file in `fs` whose path is `p`.
pub open spec fn first_id_with_path(fs: Seq<FileEntry>, p: Seq<char>) -> Option<u16>
    decreases fs.len(),
{
    if fs.len() == 0 {
        None
    } else if fs[0].1 == p {
        Some(fs[0].0)
    } else {
        first_id_with_path(fs.drop_first(), p)
    }
}

fn parse_header(data: &[u8]) -> (r: Result<RomHeader, Error>)
    ensures
        match header_error(data@) {
            Some(e) => r == Err::<RomHeader, Error>(e),
            None => r matches Ok(h) && header_matches(h, data@),
        },
{
    if data.len() < HEADER_SIZE {
        return Err(Error::TooSmall);
    }
    let h = RomHeader {
        title: str_at(data, 0x00, 12),
        gamecode: str_at(data, 0x0C, 4),
        makercode: str_at(data, 0x10, 2),
        unit_code: data[0x12],
        fnt_offset: le32_exec(data, 0x40),
        fnt_size: le32_exec(data, 0x44),
        fat_offset: le32_exec(data, 0x48),
        fat_size: le32_exec(data, 0x4C),
        rom_size_used: le32_exec(data, 0x80),
        arm9_offset: le32_exec(data, 0x20),
        arm9_size: le32_exec(data, 0x2C),
    };
    let fat_ok = h.fat_offset as usize <= data.len() && h.fat_size as usize <= data.len() - h.fat_offset as usize;
    if !fat_ok || h.fat_size % 8 != 0 {
        return Err(Error::InvalidFat);
    }
    Ok(h)
}

fn parse_fat(data: &[u8], h: &RomHeader) -> (fat: Vec<(u32, u32)>)
    requires
        header_error(data@) is None,
        header_matches(*h, data@),
    ensures
        fat@ == fat_of(data@, *h),
{
    let count = (h.fat_size / 8) as usize;
    let base0 = h.fat_offset as usize;
    let mut fat: Vec<(u32, u32)> = Vec::with_capacity(count);
    let dl = data.len();
    let mut i: usize = 0;
    while i < count
        invariant
            dl == data@.len(),
            count == h.fat_size / 8,
            base0 == h.fat_offset,
            base0 + 8 * count <= data@.len(),
            i <= count,
            fat@ =~= fat_of(data@, *h).subrange(0, i as int),
        decreases count - i,
    {
        let base = base0 + i * 8;
        fat.push((le32_exec(data, base), le32_exec(data, base + 4)));
        i = i + 1;
    }
    fat
}

/// A directory record while the name table is being read.
struct DirRecord {
    subtable_offset: u32,
    first_file_id: u16,
    name: String,
    parent: i32,
}

spec fn dir_view(r: DirRecord) -> Dir {
    (r.subtable_offset, r.first_file_id, r.name@, r.parent as int)
}

spec fn dirs_view(v: Seq<DirRecord>) -> Seq<Dir> {
    v.map_values(|r: DirRecord| dir_view(r))
}

/// Reads the name table; `None` where the walk would not end or file ids would overflow.
fn parse_fnt(data: &[u8], h: &RomHeader) -> (r: Option<Vec<RomFile>>)
    requires
        header_error(data@) is None,
        header_matches(*h, data@),
    ensures
        match r {
            Some(v) => name_table(data@, *h) == Some(file_entries(v@)),
            None => name_table(data@, *h) is None,
        },
{
    let fnt = h.fnt_offset as usize;
    if h.fnt_size < 8 || fnt > data.len() || h.fnt_size as usize > data.len() - fnt {
        proof {
            assert(file_entries(Seq::<RomFile>::empty()) =~= Seq::<FileEntry>::empty());
        }
        return Some(Vec::new());
    }
    let total_dirs = le16_exec(data, fnt + 6);
    if total_dirs == 0 || total_dirs as u32 * 8 > h.fnt_size {
        proof {
            assert(file_entries(Seq::<RomFile>::empty()) =~= Seq::<FileEntry>::empty());
        }
        return Some(Vec::new());
    }
    let n = total_dirs as usize;
    let ghost records = dir_records(data@, fnt as int, n as nat);
    let mut dirs: Vec<DirRecord> = Vec::with_capacity(n);
    let dl = data.len();
    let mut i: usize = 0;
    while i < n
        invariant
            dl == data@.len(),
            n == total_dirs,
            fnt + 8 * n <= data@.len(),
            records == dir_records(data@, fnt as int, n as nat),
            i <= n,
            dirs@.len() == i,
            dirs_view(dirs@) =~= records.subrange(0, i as int),
        decreases n - i,
    {
        let base = fnt + i * 8;
        let so = le32_exec(data, base);
        let fid = le16_exec(data, base + 4);
        let ghost before = dirs_view(dirs@);
        dirs.push(DirRecord { subtable_offset: so, first_file_id: fid, name: String::new(), parent: -1 });
        proof {
            assert(dir_view(dirs@[i as int]) == records[i as int]);
            assert(dirs_view(dirs@) =~= before.push(records[i as int]));
        }
        i = i + 1;
    }
    proof {
        assert(records.subrange(0, n as int) =~= records);
    }
    // First pass: establish sub-directory names and parentage.
    let ghost linked = link_all(data@, fnt as int, records, 0, n as int);
    i = 0;
    while i < n
        invariant
            n == dirs@.len(),
            n <= 0xFFFF,
            fnt <= data@.len(),
            i <= n,
            linked == link_all(data@, fnt as int, dirs_view(dirs@), i as int, n as int),
        decreases n - i,
    {
        link_dir(data, fnt, &mut dirs, i);
        i = i + 1;
    }
    // Second pass: emit every named file with its full path.
    let mut files: Vec<RomFile> = Vec::new();
    let ghost goal = files_all(data@, fnt as int, linked, 0, seq![]);
    proof {
        assert(file_entries(files@) =~= Seq::<FileEntry>::empty());
    }
    i = 0;
    while i < n
        invariant
            n == dirs@.len(),
            n <= 0xFFFF,
            fnt <= data@.len(),
            header_matches(*h, data@),
            fnt == h.fnt_offset,
            !(h.fnt_size < 8 || fnt > data@.len() || h.fnt_size > data@.len() - fnt),
            n == le16(data@, fnt + 6),
            n > 0 && n * 8 <= h.fnt_size,
            linked == link_all(data@, fnt as int, dir_records(data@, fnt as int, n as nat), 0, n as int),
            goal == files_all(data@, fnt as int, linked, 0, seq![]),
            i <= n,
            linked == dirs_view(dirs@),
            goal == files_all(data@, fnt as int, linked, i as int, file_entries(files@)),
        decreases n - i,
    {
        let prefix = match dir_path(&dirs, i) {
            Some(p) => p,
            None => {
                return None;
            },
        };
        let ok = emit_files(data, fnt, &dirs, i, &prefix, &mut files);
        if !ok {
            return None;
        }
        i = i + 1;
    }
    proof {
        assert(file_entries(Seq::<RomFile>::empty()) =~= Seq::<FileEntry>::empty());
    }
    Some(sort_files_by_id(files))
}

/// Links the sub-directories listed by directory `i`.
fn link_dir(data: &[u8], fnt: usize, dirs: &mut Vec<DirRecord>, i: usize)
    requires
        i < old(dirs)@.len() <= 0xFFFF,
        fnt <= data@.len(),
    ensures
        final(dirs)@.len() == old(dirs)@.len(),
        dirs_view(final(dirs)@) == link_scan(data@, dirs_view(old(dirs)@), i as int, fnt + old(dirs)@[i as int].subtable_offset),
{
    let off = dirs[i].subtable_offset as usize;
    if off > data.len() - fnt {
        return;
    }
    let mut pos: usize = fnt + off;
    let ghost goal = link_scan(data@, dirs_view(dirs@), i as int, pos as int);
    while pos < data.len()
        invariant
            i < dirs@.len() <= 0xFFFF,
            dirs@.len() == old(dirs)@.len(),
            goal == link_scan(data@, dirs_view(dirs@), i as int, pos as int),
        ensures
            dirs@.len() == old(dirs)@.len(),
            goal == dirs_view(dirs@),
        decreases data.len() - pos,
    {
        let control = data[pos];
        if control == 0 {
            break;
        }
        let name_len = (control % 128) as usize;
        let p = pos + 1;
        if name_len > data.len() - p {
            break;
        }
        if control < 128 {
            pos = p + name_len;
            continue;
        }
        if data.len() - (p + name_len) < 2 {
            break;
        }
        let name = str_at(data, p, name_len);
        let sub_id = le16_exec(data, p + name_len);
        let idx = (sub_id % 4096) as usize;
        if idx < dirs.len() {
            let rec = DirRecord {
                subtable_offset: dirs[idx].subtable_offset,
                first_file_id: dirs[idx].first_file_id,
                name,
                parent: i as i32,
            };
            let ghost before = dirs_view(dirs@);
            dirs.set(idx, rec);
            proof {
                assert(dirs_view(dirs@) =~= before.update(idx as int,
                    (before[idx as int].0, before[idx as int].1, field_text(data@, p as int, name_len as int), i as int)));
            }
        }
        pos = p + name_len + 2;
    }
    proof {
        // Nothing of the subtable lies inside the image.
    }
}

/// The full path of directory `i`; `None` when its parent chain does not reach
/// the root within as many steps as there are directories.
fn dir_path(dirs: &Vec<DirRecord>, i: usize) -> (r: Option<String>)
    requires
        i < dirs@.len() <= 0xFFFF,
    ensures
        match path_walk(dirs_view(dirs@), i as int, seq![], dirs@.len() as nat) {
            Some(p) => r matches Some(s) && s@ == p,
            None => r is None,
        },
{
    let ghost dv = dirs_view(dirs@);
    let mut path = String::new();
    let mut cur: i32 = i as i32;
    let mut fuel: usize = dirs.len();
    let ghost goal = path_walk(dv, i as int, seq![], dirs@.len() as nat);
    while cur > 0 && (cur as usize) < dirs.len()
        invariant
            goal == path_walk(dirs_view(dirs@), i as int, seq![], dirs@.len() as nat),
            dv == dirs_view(dirs@),
            dirs@.len() <= 0xFFFF,
            fuel <= dirs@.len(),
            goal == path_walk(dv, cur as int, path@, fuel as nat),
        ensures
            goal == path_walk(dv, cur as int, path@, fuel as nat),
            !(0 < cur < dirs@.len()),
        decreases fuel,
    {
        if fuel == 0 {
            return None;
        }
        let idx = cur as usize;
        let d = &dirs[idx];
        proof {
            assert(dv[idx as int] == dir_view(dirs@[idx as int]));
        }
        let next = if path.as_str().is_empty() {
            d.name.clone()
        } else {
            let mut s = d.name.clone();
            s.push('/');
            push_text(&mut s, &path);
            proof {
                assert(s@ =~= d.name@ + seq!['/'] + path@);
            }
            s
        };
        path = next;
        cur = d.parent;
        fuel = fuel - 1;
    }
    Some(path)
}

/// Appends the files named by directory `i`'s subtable; false when ids would overflow.
fn emit_files(data: &[u8], fnt: usize, dirs: &Vec<DirRecord>, i: usize, prefix: &String, files: &mut Vec<RomFile>) -> (ok: bool)
    requires
        i < dirs@.len(),
        fnt <= data@.len(),
    ensures
        match file_scan(data@, prefix@, dirs@[i as int].first_file_id as int,
            fnt + dirs@[i as int].subtable_offset, file_entries(old(files)@)) {
            Some(fs) => ok && file_entries(final(files)@) == fs,
            None => !ok,
        },
{
    let off = dirs[i].subtable_offset as usize;
    if off > data.len() - fnt {
        return true;
    }
    let mut pos: usize = fnt + off;
    let mut file_id: u16 = dirs[i].first_file_id;
    let ghost goal = file_scan(data@, prefix@, file_id as int, pos as int, file_entries(files@));
    let prefix_empty = prefix.as_str().is_empty();
    while pos < data.len()
        invariant
            goal == file_scan(data@, prefix@, dirs@[i as int].first_file_id as int,
                fnt + dirs@[i as int].subtable_offset, file_entries(old(files)@)),
            prefix_empty == (prefix@.len() == 0),
            goal == file_scan(data@, prefix@, file_id as int, pos as int, file_entries(files@)),
        ensures
            goal == Some(file_entries(files@)),
        decreases data.len() - pos,
    {
        let control = data[pos];
        if control == 0 {
            break;
        }
        let name_len = (control % 128) as usize;
        let p = pos + 1;
        if name_len > data.len() - p {
            break;
        }
        if control >= 128 {
            if data.len() - (p + name_len) < 2 {
                pos = data.len();
            } else {
                pos = p + name_len + 2;
            }
            continue;
        }
        if file_id == 0xFFFF {
            return false;
        }
        let name = str_at(data, p, name_len);
        let path = if prefix_empty {
            name
        } else {
            let mut s = prefix.clone();
            s.push('/');
            push_text(&mut s, &name);
            assert(s@ =~= prefix@ + seq!['/'] + name@);
            s
        };
        let ghost before = file_entries(files@);
        files.push(RomFile { id: file_id, path });
        proof {
            assert(file_entries(files@) =~= before.push((file_id, below(prefix@, field_text(data@, p as int, name_len as int)))));
        }
        file_id = file_id + 1;
        pos = p + name_len;
    }
    true
}

/// Stable sort of the files by id.
fn sort_files_by_id(files: Vec<RomFile>) -> (out: Vec<RomFile>)
    ensures
        file_entries(out@) == sort_by_id(file_entries(files@)),
{
    let mut out: Vec<RomFile> = Vec::new();
    let mut rest = files;
    let ghost all = file_entries(rest@);
    let mut taken: usize = 0;
    let n = rest.len();
    // Take the files front to back, inserting each after any equal ids.
    let mut src: Vec<RomFile> = Vec::new();
    while rest.len() > 0
        invariant
            n == all.len(),
            rest@.len() + taken == n,
            file_entries(rest@) == all.subrange(taken as int, n as int),
            file_entries(out@) == sort_by_id(all.subrange(0, taken as int)),
        decreases rest.len(),
    {
        let ghost old_rest = rest@;
        let x = rest.remove(0);
        let ghost xv = (x.id, x.path@);
        proof {
            assert(file_entries(old_rest)[0] == xv);
            assert(rest@ =~= old_rest.subrange(1, old_rest.len() as int));
            assert(file_entries(rest@) =~= file_entries(old_rest).subrange(1, old_rest.len() as int));
            assert(file_entries(rest@) =~= all.subrange(taken + 1, n as int));
            assert(all.subrange(0, taken + 1).drop_last() =~= all.subrange(0, taken as int));
            assert(all.subrange(0, taken + 1).last() == xv);
        }
        let mut j = out.len();
        let ghost s = file_entries(out@);
        proof {
            assert(s.subrange(0, j as int) =~= s);
            assert(s.subrange(j as int, s.len() as int) =~= Seq::<FileEntry>::empty());
            assert(insert_by_id(s, xv) + Seq::<FileEntry>::empty() =~= insert_by_id(s, xv));
        }
        while j > 0 && out[j - 1].id > x.id
            invariant
                xv == (x.id, x.path@),
                j <= out@.len(),
                s == file_entries(out@),
                insert_by_id(s, xv) == insert_by_id(s.subrange(0, j as int), xv) + s.subrange(j as int, s.len() as int),
            decreases j,
        {
            proof {
                let t = s.subrange(0, j as int);
                assert(s[j - 1] == (out@[j - 1].id, out@[j - 1].path@));
                assert(t.last() == s[j - 1]);
                assert(t.last().0 > xv.0);
                assert(t.drop_last() =~= s.subrange(0, j - 1));
                assert(insert_by_id(t, xv) == insert_by_id(t.drop_last(), xv).push(t.last()));
                assert(s.subrange(j - 1, s.len() as int) =~= seq![t.last()] + s.subrange(j as int, s.len() as int));
                assert(insert_by_id(s.subrange(0, j - 1), xv).push(t.last()) + s.subrange(j as int, s.len() as int)
                    =~= insert_by_id(s.subrange(0, j - 1), xv) + s.subrange(j - 1, s.len() as int));
            }
            j = j - 1;
        }
        proof {
            let t = s.subrange(0, j as int);
            if j > 0 {
                assert(s[j - 1] == (out@[j - 1].id, out@[j - 1].path@));
                assert(insert_by_id(t, xv) == t.push(xv));
            } else {
                assert(t.len() == 0);
            }
        }
        out.insert(j, x);
        proof {
            assert(file_entries(out@) =~= s.subrange(0, j as int).push(xv) + s.subrange(j as int, s.len() as int));
        }
        taken = taken + 1;
    }
    proof {
        assert(all.subrange(0, n as int) =~= all);
    }
    out
}

} // verus!
