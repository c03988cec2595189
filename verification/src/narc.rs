//! Nitro Archive (NARC): the container Gen 4/5 games use to bundle related
//! resources. Composed of BTAF (allocation), BTNF (optional names) and GMIF
//! (packed data) sub-blocks.
use crate::bytes::{fits, has_tag, le16, le16_exec, le32, le32_exec, tag_at, until_nul};
use crate::error::Error;
use crate::text::{lossy_text, str_at};
use vstd::prelude::*;

verus! {

/// What the block table has yielded so far: allocation entries, the image
/// block's byte span, and the name block's (offset, size).
pub type BlockScan = (Seq<(u32, u32)>, Option<(int, int)>, Option<(int, int)>);

/// The `count` (start, end) allocation pairs of a BTAF table at `table`.
pub open spec fn btaf_entries(d: Seq<u8>, table: int, count: int) -> Seq<(u32, u32)> {
    Seq::new(count as nat, |i: int| (le32(d, table + 8 * i) as u32, le32(d, table + 8 * i + 4) as u32))
}

/// Walks `left` more blocks starting at `off`. Blocks follow each other
/// back-to-back; the walk ends early when fewer than 8 bytes remain.
pub open spec fn scan_blocks(d: Seq<u8>, left: nat, off: int, acc: BlockScan) -> Result<BlockScan, Error>
    decreases left,
{
    if left == 0 || off + 8 > d.len() {
        Ok(acc)
    } else {
        let size = le32(d, off + 4);
        if size < 8 || off + size > d.len() {
            Err(Error::BadBlockSize)
        } else if tag_at(d, off, 66, 84, 65, 70) {
            // "BTAF"
            if !fits(d, off + 8, 2) {
                Err(Error::Truncated)
            } else if le16(d, off + 8) > 0 && off + 12 + 8 * le16(d, off + 8) > d.len() {
                Err(Error::Truncated)
            } else {
                scan_blocks(d, (left - 1) as nat, off + size,
                    (acc.0 + btaf_entries(d, off + 12, le16(d, off + 8)), acc.1, acc.2))
            }
        } else if tag_at(d, off, 66, 84, 78, 70) {
            // "BTNF"
            scan_blocks(d, (left - 1) as nat, off + size, (acc.0, acc.1, Some((off + 8, size - 8))))
        } else if tag_at(d, off, 71, 77, 73, 70) {
            // "GMIF"
            scan_blocks(d, (left - 1) as nat, off + size, (acc.0, Some((off + 8, off + size)), acc.2))
        } else {
            scan_blocks(d, (left - 1) as nat, off + size, acc)
        }
    }
}

/// The raw names of a flat name subtable starting at `pos`: each entry is a
/// length byte (bit 7 marks a directory) followed by the name; a zero byte ends
/// the list. `None` when a directory entry or a truncated name is met.
pub open spec fn name_scan(d: Seq<u8>, pos: int, acc: Seq<Seq<u8>>) -> Option<Seq<Seq<u8>>>
    decreases d.len() - pos,
{
    if pos < 0 || pos >= d.len() {
        Some(acc)
    } else if d[pos] == 0 {
        Some(acc)
    } else if d[pos] >= 128 || pos + 1 + d[pos] as int > d.len() {
        None
    } else {
        name_scan(d, pos + 1 + d[pos] as int, acc.push(d.subrange(pos + 1, pos + 1 + d[pos] as int)))
    }
}

/// The text of a stored name: the bytes before any NUL, decoded leniently.
pub open spec fn name_text(b: Seq<u8>) -> Seq<char> {
    lossy_text(until_nul(b))
}

/// Names from a BTNF block at `off` of `size` bytes, when it describes a single
/// flat directory with exactly `count` entries.
pub open spec fn flat_names(d: Seq<u8>, off: int, size: int, count: int) -> Option<Seq<Seq<char>>> {
    if size < 8 || !fits(d, off, 8) || le16(d, off + 6) != 1 {
        None
    } else {
        match name_scan(d, off + le32(d, off), seq![]) {
            Some(ns) => if ns.len() == count {
                Some(ns.map_values(|b: Seq<u8>| name_text(b)))
            } else {
                None
            },
            None => None,
        }
    }
}

/// Per-entry names of an archive (empty when it has none that can be recovered).
pub open spec fn archive_names(d: Seq<u8>, span: Option<(int, int)>, count: int) -> Seq<Option<Seq<char>>> {
    match span {
        Some((off, size)) => match flat_names(d, off, size, count) {
            Some(ns) => ns.map_values(|n: Seq<char>| Some(n)),
            None => seq![],
        },
        None => seq![],
    }
}

/// A parsed archive: image span, allocation entries and names.
pub type ArchiveModel = (int, int, Seq<(u32, u32)>, Seq<Option<Seq<char>>>);

/// What parsing `d` as a NARC yields.
pub open spec fn archive_model(d: Seq<u8>) -> Result<ArchiveModel, Error> {
    if d.len() < 16 || !tag_at(d, 0, 78, 65, 82, 67) {
        Err(Error::BadMagic)
    } else {
        match scan_blocks(d, le16(d, 14) as nat, 16, (seq![], None, None)) {
            Err(e) => Err(e),
            Ok(scan) => match scan.1 {
                None => Err(Error::MissingImage),
                Some((s, e)) => Ok((s, e, scan.0, archive_names(d, scan.2, scan.0.len() as int))),
            },
        }
    }
}

/// Sub-file `i` of an image with the given allocation entries.
pub open spec fn entry_bytes(image: Seq<u8>, entries: Seq<(u32, u32)>, i: int) -> Result<Seq<u8>, Error> {
    if i < 0 || i >= entries.len() {
        Err(Error::IndexOutOfRange)
    } else {
        let (s, e) = entries[i];
        if s > image.len() || e > image.len() || e < s {
            Err(Error::EntryOutsideImage)
        } else {
            Ok(image.subrange(s as int, e as int))
        }
    }
}

/// Sub-file `i` of the archive whose bytes are `d`, when `d` parses and the entry lies inside it.
pub open spec fn archive_file(d: Seq<u8>, i: int) -> Option<Seq<u8>> {
    match archive_model(d) {
        Ok(m) => match entry_bytes(d.subrange(m.0, m.1), m.2, i) {
            Ok(b) => Some(b),
            Err(_) => None,
        },
        Err(_) => None,
    }
}

/// A parsed Nitro archive borrowing its file image from the archive bytes.
pub struct Narc<'a> {
    image: &'a [u8],
    entries: Vec<(u32, u32)>,
    names: Vec<Option<String>>,
}

impl<'a> Narc<'a> {
    /// The packed file image (the GMIF block's contents).
    pub closed spec fn image(&self) -> Seq<u8> {
        self.image@
    }

    /// The (start, end) offsets of each sub-file within the image.
    pub closed spec fn entries(&self) -> Seq<(u32, u32)> {
        self.entries@
    }

    /// The recovered name of each sub-file (empty when the archive has none).
    pub closed spec fn names(&self) -> Seq<Option<Seq<char>>> {
        self.names@.map_values(|n: Option<String>| opt_text(n))
    }

    /// Whether this archive is what `archive_model` gives for `d`.
    pub open spec fn parsed_from(&self, d: Seq<u8>) -> bool {
        match archive_model(d) {
            Ok(m) => self.image() == d.subrange(m.0, m.1) && self.entries() == m.2 && self.names() == m.3,
            Err(_) => false,
        }
    }

    /// Parses a NARC archive.
    pub fn parse(data: &'a [u8]) -> (r: Result<Narc<'a>, Error>)
        ensures
            match archive_model(data@) {
                Ok(_) => r matches Ok(n) && n.parsed_from(data@),
                Err(e) => r == Err::<Narc<'a>, Error>(e),
            },
    {
        if data.len() < 0x10 || !has_tag(data, 0, 78, 65, 82, 67) {
            return Err(Error::BadMagic);
        }
        let num_blocks = le16_exec(data, 0x0E);
        let mut entries: Vec<(u32, u32)> = Vec::new();
        let mut image: Option<(usize, usize)> = None;
        let mut names_span: Option<(usize, usize)> = None;
        let mut offset: usize = 0x10;
        let mut k: u16 = 0;
        let ghost goal = scan_blocks(data@, num_blocks as nat, 16, (seq![], None, None));
        while k < num_blocks
            invariant
                data@.len() >= 16,
                tag_at(data@, 0, 78, 65, 82, 67),
                num_blocks == le16(data@, 14),
                k <= num_blocks,
                offset <= data.len(),
                goal == scan_blocks(data@, num_blocks as nat, 16, (seq![], None, None)),
                goal == scan_blocks(data@, (num_blocks - k) as nat, offset as int,
                    (entries@, opt_span(image), opt_span(names_span))),
                image matches Some((s, e)) ==> s <= e <= data.len(),
            ensures
                goal == scan_blocks(data@, 0, offset as int,
                    (entries@, opt_span(image), opt_span(names_span)))
                || goal == scan_blocks(data@, (num_blocks - k) as nat, offset as int,
                    (entries@, opt_span(image), opt_span(names_span))) && offset + 8 > data.len(),
                image matches Some((s, e)) ==> s <= e <= data.len(),
            decreases num_blocks - k,
        {
            if data.len() - offset < 8 {
                break;
            }
            let block_size = le32_exec(data, offset + 4);
            if block_size < 8 || block_size as usize > data.len() - offset {
                return Err(Error::BadBlockSize);
            }
            let size = block_size as usize;
            if has_tag(data, offset, 66, 84, 65, 70) {
                if data.len() - offset < 10 {
                    return Err(Error::Truncated);
                }
                let file_count = le16_exec(data, offset + 8);
                if file_count > 0 && data.len() - offset < 12 {
                    return Err(Error::Truncated);
                }
                if file_count == 0 {
                    proof {
                        assert(btaf_entries(data@, offset + 12, 0) =~= Seq::<(u32, u32)>::empty());
                        assert(entries@ + btaf_entries(data@, offset + 12, 0) =~= entries@);
                    }
                    offset = offset + size;
                    k = k + 1;
                    continue;
                }
                let table = offset + 12;
                if (data.len() - table) / 8 < file_count as usize {
                    proof {
                        assert(offset + 12 + 8 * file_count > data.len()) by (nonlinear_arith)
                            requires
                                table == offset + 12,
                                (data.len() - table) / 8 < file_count,
                        ;
                    }
                    return Err(Error::Truncated);
                }
                proof {
                    assert(table + 8 * file_count <= data.len()) by (nonlinear_arith)
                        requires
                            table <= data.len(),
                            (data.len() - table) / 8 >= file_count,
                    ;
                }
                let ghost before = entries@;
                let mut i: usize = 0;
                while i < file_count as usize
                    invariant
                        i <= file_count,
                        table + 8 * file_count <= data.len(),
                        entries@ == before + btaf_entries(data@, table as int, i as int),
                    decreases file_count - i,
                {
                    let s = le32_exec(data, table + i * 8);
                    let e = le32_exec(data, table + i * 8 + 4);
                    entries.push((s, e));
                    i = i + 1;
                    assert(entries@ =~= before + btaf_entries(data@, table as int, i as int));
                }
                assert(offset + 12 + 8 * le16(data@, offset + 8) <= data.len());
            } else if has_tag(data, offset, 66, 84, 78, 70) {
                names_span = Some((offset + 8, size - 8));
            } else if has_tag(data, offset, 71, 77, 73, 70) {
                image = Some((offset + 8, offset + size));
            }
            offset = offset + size;
            k = k + 1;
        }
        let (s, e) = match image {
            Some(span) => span,
            None => {
                return Err(Error::MissingImage);
            },
        };
        let count = entries.len();
        let names = match names_span {
            Some((off, size)) => match parse_names(data, off, size, count) {
                Some(ns) => ns,
                None => Vec::new(),
            },
            None => Vec::new(),
        };
        let narc = Narc { image: &data[s..e], entries, names };
        proof {
            assert(narc.names() =~= archive_names(data@, opt_span(names_span), count as int));
        }
        Ok(narc)
    }

    /// Number of sub-files in the allocation table.
    pub fn file_count(&self) -> (n: usize)
        ensures
            n == self.entries().len(),
    {
        self.entries.len()
    }

    /// Sub-file `index` as a slice of the archive's image.
    pub fn file(&self, index: usize) -> (r: Result<&'a [u8], Error>)
        ensures
            match entry_bytes(self.image(), self.entries(), index as int) {
                Ok(b) => r matches Ok(s) && s@ == b,
                Err(e) => r == Err::<&'a [u8], Error>(e),
            },
    {
        if index >= self.entries.len() {
            return Err(Error::IndexOutOfRange);
        }
        let (start, end) = self.entries[index];
        let (start, end) = (start as usize, end as usize);
        if start > self.image.len() || end > self.image.len() || end < start {
            return Err(Error::EntryOutsideImage);
        }
        Ok(&self.image[start..end])
    }

    /// The recovered name of sub-file `index`, if the archive names its files.
    pub fn name(&self, index: usize) -> (r: Option<&str>)
        ensures
            match r {
                Some(s) => 0 <= index < self.names().len() && self.names()[index as int] == Some(s@),
                None => index >= self.names().len() || self.names()[index as int] is None,
            },
    {
        if index < self.names.len() {
            match &self.names[index] {
                Some(s) => Some(s.as_str()),
                None => None,
            }
        } else {
            None
        }
    }
}

/// The text of an optional name.
pub open spec fn opt_text(n: Option<String>) -> Option<Seq<char>> {
    match n {
        Some(s) => Some(s@),
        None => None,
    }
}

/// A span held as plain offsets, seen as integers.
pub open spec fn opt_span(s: Option<(usize, usize)>) -> Option<(int, int)> {
    match s {
        Some((a, b)) => Some((a as int, b as int)),
        None => None,
    }
}

/// Reconstruct names for the common flat, single-directory NARC layout.
fn parse_names(data: &[u8], offset: usize, size: usize, count: usize) -> (r: Option<Vec<Option<String>>>)
    ensures
        match flat_names(data@, offset as int, size as int, count as int) {
            Some(ns) => r matches Some(v) && v@.len() == ns.len() && forall|i: int|
                0 <= i < ns.len() ==> opt_text(#[trigger] v@[i]) == Some(ns[i]),
            None => r is None,
        },
{
    if size < 8 || offset > data.len() || data.len() - offset < 8 {
        return None;
    }
    let root_subtable = le32_exec(data, offset);
    if le16_exec(data, offset + 6) != 1 {
        return None;
    }
    let mut names: Vec<Option<String>> = Vec::new();
    let ghost mut raw: Seq<Seq<u8>> = seq![];
    if root_subtable as usize > data.len() - offset {
        // The subtable starts past the end: no names at all.
        proof {
            assert(name_scan(data@, offset + le32(data@, offset as int), seq![]) == Some(Seq::<Seq<u8>>::empty()));
        }
    } else {
        let mut pos: usize = offset + root_subtable as usize;
        let ghost goal = name_scan(data@, pos as int, seq![]);
        while pos < data.len()
            invariant
                goal == name_scan(data@, offset + le32(data@, offset as int), seq![]),
                size >= 8,
                fits(data@, offset as int, 8),
                le16(data@, offset + 6) == 1,
                goal == name_scan(data@, pos as int, raw),
                names@.len() == raw.len(),
                forall|i: int| 0 <= i < raw.len() ==> opt_text(#[trigger] names@[i]) == Some(name_text(raw[i])),
            ensures
                goal == name_scan(data@, pos as int, raw) && (pos >= data.len() || data@[pos as int] == 0),
                names@.len() == raw.len(),
                forall|i: int| 0 <= i < raw.len() ==> opt_text(#[trigger] names@[i]) == Some(name_text(raw[i])),
            decreases data.len() - pos,
        {
            let control = data[pos];
            if control == 0 {
                break;
            }
            let name_len = (control % 128) as usize;
            if control >= 128 || data.len() - (pos + 1) < name_len {
                return None;
            }
            let name = str_at(data, pos + 1, name_len);
            proof {
                raw = raw.push(data@.subrange(pos + 1, pos + 1 + name_len));
            }
            names.push(Some(name));
            pos = pos + 1 + name_len;
        }
        if names.len() != count {
            return None;
        }
        return Some(names);
    }
    if count != 0 {
        return None;
    }
    Some(names)
}

} // verus!
