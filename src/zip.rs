//! Read-only driver for ZIP archives whose entries are stored uncompressed.
//!
//! Mounting finds the end-of-central-directory record by a backward scan,
//! follows the ZIP64 locator where the record's fields hold the ZIP64
//! sentinel, and reads the central directory into a table. Entry `i` of the
//! file index is the `i`-th header of the central directory.

use vstd::prelude::*;
use vstd::utf8::valid_utf8;
use crate::bytes::{
    has_sig, le16, le32, le64, lemma_le16_window, lemma_le32_window, lemma_le64_window, read_le16,
    read_le32, read_le64,
};
use crate::storage::{
    clipped_name, fill_entry, read_exact, BlockStorage, DirEntry, EntryInfo, Error, FileStorage,
};

verus! {

pub const EOCD_SIG: u32 = 0x0605_4b50;
pub const ZIP64_LOCATOR_SIG: u32 = 0x0706_4b50;
pub const ZIP64_EOCD_SIG: u32 = 0x0606_4b50;
pub const CENTRAL_HEADER_SIG: u32 = 0x0201_4b50;
pub const LOCAL_HEADER_SIG: u32 = 0x0403_4b50;

pub const EOCD_LEN: u64 = 22;
pub const ZIP64_LOCATOR_LEN: u64 = 20;
pub const ZIP64_EOCD_LEN: u64 = 56;
pub const CENTRAL_HEADER_LEN: u64 = 46;
pub const LOCAL_HEADER_LEN: u64 = 30;

/// Size of the windows in which the end of the archive is searched.
pub const SCAN_WINDOW: u64 = 512;

/// Compression method of entries whose data is stored as it is.
pub const METHOD_STORED: u16 = 0;

/// An end-of-central-directory record starts at `p` and fits in `s`.
pub open spec fn eocd_at(s: Seq<u8>, p: int) -> bool {
    p + EOCD_LEN <= s.len() && has_sig(s, p, EOCD_SIG)
}

/// `p` is the last place in `s` where an end-of-central-directory record fits.
pub open spec fn is_last_eocd(s: Seq<u8>, p: int) -> bool {
    eocd_at(s, p) && forall|q: int| #[trigger] eocd_at(s, q) ==> q <= p
}

/// Where the end-of-central-directory record of archive `s` starts.
pub open spec fn eocd_position(s: Seq<u8>) -> Option<int> {
    if exists|p: int| is_last_eocd(s, p) {
        Some(choose|p: int| is_last_eocd(s, p))
    } else {
        None
    }
}

/// Whether a field of the record at `p` holds the ZIP64 sentinel.
pub open spec fn needs_zip64(s: Seq<u8>, p: int) -> bool {
    le16(s, p + 4) == 0xFFFF || le16(s, p + 6) == 0xFFFF || le16(s, p + 8) == 0xFFFF || le16(
        s,
        p + 10,
    ) == 0xFFFF || le32(s, p + 12) == 0xFFFF_FFFF || le32(s, p + 16) == 0xFFFF_FFFF
}

/// Offset and entry count of the central directory, as the ZIP64 record
/// named by the locator that ends where the record at `p` starts gives them.
pub open spec fn zip64_location(s: Seq<u8>, p: int) -> Option<(int, int)> {
    let l = p - ZIP64_LOCATOR_LEN;
    let z = le64(s, l + 8);
    if l >= 0 && has_sig(s, l, ZIP64_LOCATOR_SIG) && z + ZIP64_EOCD_LEN <= s.len() && has_sig(
        s,
        z,
        ZIP64_EOCD_SIG,
    ) {
        Some((le64(s, z + 48), le64(s, z + 32)))
    } else {
        None
    }
}

/// Offset and entry count of the central directory of archive `s`.
pub open spec fn directory_location(s: Seq<u8>) -> Option<(int, int)> {
    match eocd_position(s) {
        Some(p) => if needs_zip64(s, p) {
            zip64_location(s, p)
        } else {
            Some((le32(s, p + 16), le16(s, p + 10)))
        },
        None => None,
    }
}

/// What the central directory says of one entry.
pub struct Record {
    pub name: Seq<u8>,
    pub local_header_offset: int,
    pub compressed_size: int,
    pub uncompressed_size: int,
    pub method: int,
    pub modified: int,
}

/// The central directory header at `pos` and the position of the next one.
pub open spec fn record_at(s: Seq<u8>, pos: int) -> Option<(Record, int)> {
    let n = le16(s, pos + 28);
    let next = pos + CENTRAL_HEADER_LEN + n + le16(s, pos + 30) + le16(s, pos + 32);
    if 0 <= pos && pos + CENTRAL_HEADER_LEN <= s.len() && has_sig(s, pos, CENTRAL_HEADER_SIG)
        && next <= s.len() {
        Some(
            (
                Record {
                    name: s.subrange(pos + CENTRAL_HEADER_LEN, pos + CENTRAL_HEADER_LEN + n),
                    local_header_offset: le32(s, pos + 42),
                    compressed_size: le32(s, pos + 20),
                    uncompressed_size: le32(s, pos + 24),
                    method: le16(s, pos + 10),
                    modified: le16(s, pos + 14) * 0x1_0000 + le16(s, pos + 12),
                },
                next,
            ),
        )
    } else {
        None
    }
}

/// The `count` consecutive central directory headers that start at `pos`.
pub open spec fn records(s: Seq<u8>, pos: int, count: nat) -> Option<Seq<Record>>
    decreases count,
{
    if count == 0 {
        Some(Seq::empty())
    } else {
        match record_at(s, pos) {
            Some((r, next)) => match records(s, next, (count - 1) as nat) {
                Some(rest) => Some(seq![r] + rest),
                None => None,
            },
            None => None,
        }
    }
}

/// The table of entries of archive `s`, where its structures are consistent.
pub open spec fn catalog(s: Seq<u8>) -> Option<Seq<Record>> {
    match directory_location(s) {
        Some((offset, count)) => records(s, offset, count as nat),
        None => None,
    }
}

/// Where the data of the entry described by `r` starts, after its local
/// header, where that header lies in the archive with its signature.
pub open spec fn data_start(s: Seq<u8>, r: Record) -> Option<int> {
    let h = r.local_header_offset;
    let start = h + LOCAL_HEADER_LEN + le16(s, h + 26) + le16(s, h + 28);
    if h + LOCAL_HEADER_LEN <= s.len() && has_sig(s, h, LOCAL_HEADER_SIG) && start <= s.len() {
        Some(start)
    } else {
        None
    }
}

/// The stored data of the entry described by `r`.
pub open spec fn record_data(s: Seq<u8>, r: Record) -> Seq<u8> {
    match data_start(s, r) {
        Some(start) => if r.method == METHOD_STORED && start + r.uncompressed_size <= s.len() {
            s.subrange(start, start + r.uncompressed_size)
        } else {
            Seq::empty()
        },
        None => Seq::empty(),
    }
}

/// What a read of `len` bytes at `offset` of entry `index` gives: `FileIndex`
/// past the table, `FileOffset` for a range outside the entry's data,
/// `FileSystemInconsistency` for a missing or broken local header,
/// `Unimplemented` for a method other than stored, and
/// `FileSystemInconsistency` for stored data that runs past the archive.
pub open spec fn read_result(s: Seq<u8>, table: Seq<Record>, index: u64, offset: int, len: int) -> Result<
    (),
    Error,
> {
    if index >= table.len() {
        Err(Error::FileIndex)
    } else {
        let r = table[index as int];
        if offset >= r.uncompressed_size || offset + len > r.uncompressed_size {
            Err(Error::FileOffset)
        } else {
            match data_start(s, r) {
                None => Err(Error::FileSystemInconsistency),
                Some(start) => if r.method != METHOD_STORED {
                    Err(Error::Unimplemented)
                } else if start + r.uncompressed_size > s.len() {
                    Err(Error::FileSystemInconsistency)
                } else {
                    Ok(())
                },
            }
        }
    }
}

/// The metadata reported for entry `index`, described by `r`.
pub open spec fn record_info(index: u64, r: Record) -> EntryInfo {
    EntryInfo {
        index,
        created_at: 0,
        last_accessed: 0,
        last_modified: r.modified as u64,
        data_length: r.uncompressed_size as u64,
        name: clipped_name(r.name),
    }
}

/// The last position `q` at which `sig` starts and `len` bytes fit in `w`.
pub fn find_last_signature(w: &[u8], sig: u32, len: usize) -> (r: Option<usize>)
    requires
        len >= 4,
    ensures
        r matches Some(q) ==> q + len <= w@.len() && has_sig(w@, q as int, sig),
        forall|q: int|
            0 <= q && q + len <= w@.len() && has_sig(w@, q, sig) ==> (r matches Some(p) && q <= p),
{
    let n = w.len();
    if n < len {
        return None;
    }
    let mut q: usize = n - len + 1;
    while q > 0
        invariant
            q <= n - len + 1,
            n == w@.len(),
            len >= 4,
            n >= len,
            forall|k: int| q <= k && k + len <= n ==> !has_sig(w@, k, sig),
        decreases q,
    {
        q = q - 1;
        if read_le32(w, q) == sig {
            return Some(q);
        }
    }
    None
}

/// The archive held in the first `size` bytes of a device (the whole device
/// where it holds fewer).
pub open spec fn archive(contents: Seq<u8>, size: u64) -> Seq<u8> {
    if size <= contents.len() {
        contents.take(size as int)
    } else {
        contents
    }
}

/// Bytes read at `off` from a device read the archive's own bytes.
proof fn lemma_read_in_archive(contents: Seq<u8>, size: u64, off: int, len: int)
    requires
        0 <= off,
        0 <= len,
        off + len <= size,
        off + len <= contents.len(),
    ensures
        contents.subrange(off, off + len) == archive(contents, size).subrange(off, off + len),
{
    assert(contents.subrange(off, off + len) =~= archive(contents, size).subrange(off, off + len));
}

/// Fields read from `len` bytes at `off` of the archive.
proof fn lemma_fields(contents: Seq<u8>, size: u64, off: int, len: int)
    requires
        0 <= off,
        0 <= len,
        off + len <= size,
        off + len <= contents.len(),
    ensures
        forall|a: int|
            0 <= a && a + 2 <= len ==> #[trigger] le16(contents.subrange(off, off + len), a) == le16(
                archive(contents, size),
                off + a,
            ),
        forall|a: int|
            0 <= a && a + 4 <= len ==> #[trigger] le32(contents.subrange(off, off + len), a) == le32(
                archive(contents, size),
                off + a,
            ),
        forall|a: int|
            0 <= a && a + 8 <= len ==> #[trigger] le64(contents.subrange(off, off + len), a) == le64(
                archive(contents, size),
                off + a,
            ),
{
    lemma_read_in_archive(contents, size, off, len);
    let arch = archive(contents, size);
    assert forall|a: int| 0 <= a && a + 2 <= len implies #[trigger] le16(
        contents.subrange(off, off + len),
        a,
    ) == le16(arch, off + a) by {
        lemma_le16_window(arch, off, len, a);
    }
    assert forall|a: int| 0 <= a && a + 4 <= len implies #[trigger] le32(
        contents.subrange(off, off + len),
        a,
    ) == le32(arch, off + a) by {
        lemma_le32_window(arch, off, len, a);
    }
    assert forall|a: int| 0 <= a && a + 8 <= len implies #[trigger] le64(
        contents.subrange(off, off + len),
        a,
    ) == le64(arch, off + a) by {
        lemma_le64_window(arch, off, len, a);
    }
}

/// Scans the archive backward, one window at a time, for the last
/// end-of-central-directory record.
fn locate_eocd<S: BlockStorage>(storage: &S, size: u64) -> (r: Result<u64, Error>)
    ensures
        r matches Ok(p) ==> size <= storage.contents().len() && eocd_position(
            archive(storage.contents(), size),
        ) == Some(p as int),
        storage.reliable() && size <= storage.contents().len() ==> (r is Ok <==> eocd_position(
            archive(storage.contents(), size),
        ) is Some) && (r is Err ==> r == Err::<u64, Error>(Error::FileSystemInconsistency)),
{
    let ghost arch = archive(storage.contents(), size);
    if size < EOCD_LEN {
        assert(!exists|p: int| is_last_eocd(arch, p));
        return Err(Error::FileSystemInconsistency);
    }
    let mut end: u64 = size;
    loop
        invariant
            end <= size,
            end >= EOCD_LEN,
            end < size ==> size <= storage.contents().len(),
            arch == archive(storage.contents(), size),
            forall|p: int| end - 21 <= p ==> !#[trigger] eocd_at(arch, p),
        decreases end,
    {
        let start: u64 = if end > SCAN_WINDOW {
            end - SCAN_WINDOW
        } else {
            0
        };
        let w = read_exact(storage, start, (end - start) as usize)?;
        proof {
            lemma_fields(storage.contents(), size, start as int, (end - start) as int);
            assert forall|q: int| 0 <= q && q + 4 <= w@.len() implies has_sig(w@, q, EOCD_SIG)
                == has_sig(arch, start + q, EOCD_SIG) by {
                assert(le32(w@, q) == le32(arch, start + q));
            }
        }
        match find_last_signature(w.as_slice(), EOCD_SIG, EOCD_LEN as usize) {
            Some(q) => {
                let p = start + q as u64;
                proof {
                    assert(eocd_at(arch, p as int));
                    assert forall|p2: int| #[trigger] eocd_at(arch, p2) implies p2 <= p by {
                        if p2 < end - 21 && p2 >= start {
                            assert(has_sig(w@, p2 - start, EOCD_SIG));
                        }
                    }
                    assert(is_last_eocd(arch, p as int));
                }
                return Ok(p);
            },
            None => {},
        }
        proof {
            assert forall|p: int| start <= p implies !#[trigger] eocd_at(arch, p) by {
                if p < end - 21 {
                    if eocd_at(arch, p) {
                        assert(has_sig(w@, p - start, EOCD_SIG));
                    }
                }
            }
        }
        if start == 0 {
            proof {
                assert(!exists|p: int| is_last_eocd(arch, p));
            }
            return Err(Error::FileSystemInconsistency);
        }
        end = start + 21;
    }
}

/// Finds the offset and entry count of the central directory.
fn locate_directory<S: BlockStorage>(storage: &S, size: u64) -> (r: Result<(u64, u64), Error>)
    ensures
        r matches Ok((offset, count)) ==> size <= storage.contents().len() && directory_location(
            archive(storage.contents(), size),
        ) == Some((offset as int, count as int)),
        storage.reliable() && size <= storage.contents().len() ==> (r is Ok <==> directory_location(
            archive(storage.contents(), size),
        ) is Some) && (r is Err ==> r == Err::<(u64, u64), Error>(Error::FileSystemInconsistency)),
{
    let ghost arch = archive(storage.contents(), size);
    let p = locate_eocd(storage, size)?;
    let e = read_exact(storage, p, EOCD_LEN as usize)?;
    proof {
        lemma_fields(storage.contents(), size, p as int, EOCD_LEN as int);
    }
    let zip64 = read_le16(e.as_slice(), 4) == 0xFFFF || read_le16(e.as_slice(), 6) == 0xFFFF
        || read_le16(e.as_slice(), 8) == 0xFFFF || read_le16(e.as_slice(), 10) == 0xFFFF
        || read_le32(e.as_slice(), 12) == 0xFFFF_FFFF || read_le32(e.as_slice(), 16)
        == 0xFFFF_FFFF;
    assert(zip64 == needs_zip64(arch, p as int));
    if !zip64 {
        return Ok((read_le32(e.as_slice(), 16) as u64, read_le16(e.as_slice(), 10) as u64));
    }
    if p < ZIP64_LOCATOR_LEN {
        return Err(Error::FileSystemInconsistency);
    }
    let l = p - ZIP64_LOCATOR_LEN;
    let loc = read_exact(storage, l, ZIP64_LOCATOR_LEN as usize)?;
    proof {
        lemma_fields(storage.contents(), size, l as int, ZIP64_LOCATOR_LEN as int);
    }
    if read_le32(loc.as_slice(), 0) != ZIP64_LOCATOR_SIG {
        return Err(Error::FileSystemInconsistency);
    }
    let z = read_le64(loc.as_slice(), 8);
    if z > size || size - z < ZIP64_EOCD_LEN {
        return Err(Error::FileSystemInconsistency);
    }
    let rec = read_exact(storage, z, ZIP64_EOCD_LEN as usize)?;
    proof {
        lemma_fields(storage.contents(), size, z as int, ZIP64_EOCD_LEN as int);
    }
    if read_le32(rec.as_slice(), 0) != ZIP64_EOCD_SIG {
        return Err(Error::FileSystemInconsistency);
    }
    Ok((read_le64(rec.as_slice(), 48), read_le64(rec.as_slice(), 32)))
}

/// One entry of the table read from the central directory.
pub struct ZipEntry {
    pub name: Vec<u8>,
    pub local_header_offset: u64,
    pub compressed_size: u64,
    pub uncompressed_size: u64,
    pub method: u16,
    pub modified: u64,
}

impl View for ZipEntry {
    type V = Record;

    open spec fn view(&self) -> Record {
        Record {
            name: self.name@,
            local_header_offset: self.local_header_offset as int,
            compressed_size: self.compressed_size as int,
            uncompressed_size: self.uncompressed_size as int,
            method: self.method as int,
            modified: self.modified as int,
        }
    }
}

/// The records that a table of entries describes.
pub open spec fn table_view(t: Seq<ZipEntry>) -> Seq<Record> {
    t.map_values(|e: ZipEntry| e@)
}

/// `acc` followed by `rest`, where `rest` was read.
pub open spec fn extend(acc: Seq<Record>, rest: Option<Seq<Record>>) -> Option<Seq<Record>> {
    match rest {
        Some(r) => Some(acc + r),
        None => None,
    }
}

/// A mounted ZIP archive.
pub struct FileSystem<S: BlockStorage> {
    storage: S,
    size: u64,
    entries: Vec<ZipEntry>,
}

impl<S: BlockStorage> FileSystem<S> {
    /// The archive lies within the device.
    #[verifier::type_invariant]
    spec fn fits(self) -> bool {
        self.size <= self.storage.contents().len()
    }

    /// The bytes of the mounted archive.
    pub closed spec fn image(&self) -> Seq<u8> {
        archive(self.storage.contents(), self.size)
    }

    /// The table read from the central directory.
    pub closed spec fn table(&self) -> Seq<Record> {
        table_view(self.entries@)
    }

    /// The device the archive lies on.
    pub closed spec fn device(&self) -> S {
        self.storage
    }

    /// Mounts the archive held in the first `size` bytes of `storage`.
    pub fn new(storage: S, size: u64) -> (r: Result<FileSystem<S>, Error>)
        ensures
            r matches Ok(fs) ==> size <= storage.contents().len() && fs.device() == storage
                && fs.image() == archive(storage.contents(), size) && catalog(fs.image()) == Some(
                fs.table(),
            ),
            catalog(archive(storage.contents(), size)) is None ==> r is Err,
            storage.reliable() && size <= storage.contents().len() ==> (r is Ok <==> catalog(
                archive(storage.contents(), size),
            ) is Some),
            storage.reliable() && size <= storage.contents().len() && r is Err ==> r == Err::<
                FileSystem<S>,
                Error,
            >(Error::FileSystemInconsistency),
    {
        let ghost arch = archive(storage.contents(), size);
        let (offset, count) = locate_directory(&storage, size)?;
        let mut entries: Vec<ZipEntry> = Vec::new();
        let mut pos: u64 = offset;
        let mut i: u64 = 0;
        assert(table_view(entries@) =~= Seq::<Record>::empty());
        assert(forall|t: Seq<Record>| Seq::<Record>::empty() + t =~= t);
        while i < count
            invariant
                i <= count,
                size <= storage.contents().len(),
                arch == archive(storage.contents(), size),
                directory_location(arch) == Some((offset as int, count as int)),
                records(arch, offset as int, count as nat) == extend(
                    table_view(entries@),
                    records(arch, pos as int, (count - i) as nat),
                ),
            decreases count - i,
        {
            if pos > size || size - pos < CENTRAL_HEADER_LEN {
                return Err(Error::FileSystemInconsistency);
            }
            let h = read_exact(&storage, pos, CENTRAL_HEADER_LEN as usize)?;
            proof {
                lemma_fields(storage.contents(), size, pos as int, CENTRAL_HEADER_LEN as int);
            }
            if read_le32(h.as_slice(), 0) != CENTRAL_HEADER_SIG {
                return Err(Error::FileSystemInconsistency);
            }
            let n = read_le16(h.as_slice(), 28) as u64;
            let x = read_le16(h.as_slice(), 30) as u64;
            let c = read_le16(h.as_slice(), 32) as u64;
            if size - pos - CENTRAL_HEADER_LEN < n + x + c {
                return Err(Error::FileSystemInconsistency);
            }
            let name = if n == 0 {
                assert(arch.subrange(pos + CENTRAL_HEADER_LEN, pos + CENTRAL_HEADER_LEN + n)
                    =~= Seq::<u8>::empty());
                Vec::new()
            } else {
                read_exact(&storage, pos + CENTRAL_HEADER_LEN, n as usize)?
            };
            proof {
                lemma_read_in_archive(
                    storage.contents(),
                    size,
                    pos + CENTRAL_HEADER_LEN,
                    n as int,
                );
            }
            let entry = ZipEntry {
                name,
                local_header_offset: read_le32(h.as_slice(), 42) as u64,
                compressed_size: read_le32(h.as_slice(), 20) as u64,
                uncompressed_size: read_le32(h.as_slice(), 24) as u64,
                method: read_le16(h.as_slice(), 10),
                modified: read_le16(h.as_slice(), 14) as u64 * 0x1_0000 + read_le16(
                    h.as_slice(),
                    12,
                ) as u64,
            };
            let ghost old_table = table_view(entries@);
            let ghost rest = records(arch, (pos + CENTRAL_HEADER_LEN + n + x + c) as int, (count - i
                - 1) as nat);
            assert(record_at(arch, pos as int) == Some((entry@, pos + CENTRAL_HEADER_LEN + n + x + c)));
            entries.push(entry);
            pos = pos + CENTRAL_HEADER_LEN + n + x + c;
            i = i + 1;
            proof {
                assert(table_view(entries@) =~= old_table.push(entry@));
                if rest is Some {
                    assert(old_table + (seq![entry@] + rest->0) =~= old_table.push(entry@)
                        + rest->0);
                }
            }
        }
        assert(table_view(entries@) + Seq::<Record>::empty() =~= table_view(entries@));
        Ok(FileSystem { storage, size, entries })
    }
}

impl<S: BlockStorage> FileStorage for FileSystem<S> {
    open spec fn entry(&self, index: u64) -> Option<EntryInfo> {
        if index < self.table().len() {
            Some(record_info(index, self.table()[index as int]))
        } else {
            None
        }
    }

    open spec fn data(&self, index: u64) -> Seq<u8> {
        if index < self.table().len() {
            record_data(self.image(), self.table()[index as int])
        } else {
            Seq::empty()
        }
    }

    /// Metadata cannot be changed in an archive.
    fn ctrl(&self, index: u64, buffer: &DirEntry) -> (r: Result<(), Error>)
        ensures
            r == Err::<(), Error>(Error::Unimplemented),
    {
        Err(Error::Unimplemented)
    }

    /// Served from the table alone: succeeds exactly for the indices of the
    /// table. `offset` is not used.
    fn stat(&self, index: u64, offset: u64, buffer: &mut DirEntry) -> (r: Result<(), Error>)
        ensures
            r is Ok <==> index < self.table().len(),
            r is Err ==> r == Err::<(), Error>(Error::FileIndex) && *final(buffer) == *old(buffer),
            r is Ok ==> valid_utf8(final(buffer)@.name),
    {
        if index >= self.entries.len() as u64 {
            return Err(Error::FileIndex);
        }
        let e = &self.entries[index as usize];
        assert(table_view(self.entries@)[index as int] == e@);
        fill_entry(
            buffer,
            index,
            0,
            0,
            e.modified,
            e.uncompressed_size,
            e.name.as_slice(),
        );
        Ok(())
    }

    /// Serves the stored data of an entry as `read_result` describes: the
    /// index and the range are checked first, then the local header, then
    /// the method. On a reliable device the result is exactly that outcome;
    /// on every error the buffer is left as it was.
    fn read(&self, index: u64, offset: u64, buffer: &mut [u8]) -> (r: Result<(), Error>)
        ensures
            r is Ok ==> read_result(
                self.image(),
                self.table(),
                index,
                offset as int,
                old(buffer)@.len() as int,
            ) == Ok::<(), Error>(()),
            self.device().reliable() ==> r == read_result(
                self.image(),
                self.table(),
                index,
                offset as int,
                old(buffer)@.len() as int,
            ),
            index >= self.table().len() ==> r == Err::<(), Error>(Error::FileIndex),
            index < self.table().len() && (offset >= self.table()[index as int].uncompressed_size
                || offset + old(buffer)@.len() > self.table()[index as int].uncompressed_size)
                ==> r == Err::<(), Error>(Error::FileOffset),
            r is Err ==> final(buffer)@ == old(buffer)@,
    {
        if index >= self.entries.len() as u64 {
            return Err(Error::FileIndex);
        }
        let e = &self.entries[index as usize];
        assert(table_view(self.entries@)[index as int] == e@);
        let n = buffer.len();
        let len = n as u64;
        if offset >= e.uncompressed_size || len > e.uncompressed_size - offset {
            return Err(Error::FileOffset);
        }
        proof {
            use_type_invariant(self);
        }
        let ghost arch = self.image();
        let h = e.local_header_offset;
        if h > self.size || self.size - h < LOCAL_HEADER_LEN {
            return Err(Error::FileSystemInconsistency);
        }
        let lh = read_exact(&self.storage, h, LOCAL_HEADER_LEN as usize)?;
        proof {
            lemma_fields(self.storage.contents(), self.size, h as int, LOCAL_HEADER_LEN as int);
        }
        if read_le32(lh.as_slice(), 0) != LOCAL_HEADER_SIG {
            return Err(Error::FileSystemInconsistency);
        }
        let skip = read_le16(lh.as_slice(), 26) as u64 + read_le16(lh.as_slice(), 28) as u64;
        if self.size - h - LOCAL_HEADER_LEN < skip {
            return Err(Error::FileSystemInconsistency);
        }
        let start = h + LOCAL_HEADER_LEN + skip;
        assert(data_start(arch, e@) == Some(start as int));
        if e.method != METHOD_STORED {
            return Err(Error::Unimplemented);
        }
        if self.size - start < e.uncompressed_size {
            return Err(Error::FileSystemInconsistency);
        }
        let tmp = read_exact(&self.storage, start + offset, n)?;
        proof {
            lemma_read_in_archive(self.storage.contents(), self.size, (start + offset) as int, n as int);
        }
        let mut i: usize = 0;
        while i < n
            invariant
                i <= n,
                n == old(buffer)@.len(),
                buffer@.len() == n,
                tmp@.len() == n,
                forall|j: int| 0 <= j < i ==> buffer@[j] == tmp@[j],
            decreases n - i,
        {
            buffer[i] = tmp[i];
            i = i + 1;
        }
        proof {
            let img = self.image();
            assert(tmp@ == img.subrange(start + offset, start + offset + n));
            assert(buffer@ =~= tmp@);
            assert(buffer@ =~= record_data(img, e@).subrange(offset as int, offset + n));
        }
        Ok(())
    }

    open spec fn read_only(&self) -> bool {
        true
    }

    /// Owed success: a reliable device and a read that `read_result` accepts.
    open spec fn serves(&self, index: u64, offset: int, len: int) -> bool {
        self.device().reliable() && read_result(self.image(), self.table(), index, offset, len)
            == Ok::<(), Error>(())
    }

    /// Archives are read-only.
    fn write(&self, index: u64, offset: u64, buffer: &[u8]) -> (r: Result<(), Error>)
        ensures
            r == Err::<(), Error>(Error::ReadOnly),
    {
        Err(Error::ReadOnly)
    }
}

/// An archive whose end-of-central-directory record closes it, as it does
/// when the archive comment is empty, has that record found exactly
/// `EOCD_LEN` bytes before its end.
pub proof fn lemma_eocd_at_end(s: Seq<u8>)
    requires
        s.len() >= EOCD_LEN,
        has_sig(s, s.len() - EOCD_LEN, EOCD_SIG),
    ensures
        eocd_position(s) == Some(s.len() - EOCD_LEN),
{
    let p = s.len() - EOCD_LEN;
    assert(is_last_eocd(s, p));
    let q = choose|q: int| is_last_eocd(s, q);
    assert(q <= p && p <= q);
}

/// Where a field of the end-of-central-directory record holds the ZIP64
/// sentinel, the central directory is located through the ZIP64 locator and
/// the ZIP64 record it names, and only through them: without a valid pair
/// the archive has no table.
pub proof fn lemma_zip64_route(s: Seq<u8>)
    requires
        eocd_position(s) is Some,
        needs_zip64(s, eocd_position(s)->0),
    ensures
        directory_location(s) == zip64_location(s, eocd_position(s)->0),
        zip64_location(s, eocd_position(s)->0) is None ==> catalog(s) is None,
{
}

/// Two `stat` calls on the same index of a mounted archive give the same
/// result, and on success the same metadata.
pub proof fn lemma_stat_repeatable<S: BlockStorage>(
    fs: &FileSystem<S>,
    index: u64,
    r1: Result<(), Error>,
    b1: DirEntry,
    r2: Result<(), Error>,
    b2: DirEntry,
)
    requires
        r1 is Ok <==> index < fs.table().len(),
        r1 is Err ==> r1 == Err::<(), Error>(Error::FileIndex),
        r1 is Ok ==> fs.entry(index) == Some(b1@),
        r2 is Ok <==> index < fs.table().len(),
        r2 is Err ==> r2 == Err::<(), Error>(Error::FileIndex),
        r2 is Ok ==> fs.entry(index) == Some(b2@),
    ensures
        r1 == r2,
        r1 is Ok ==> b1@ == b2@,
{
    if r1 is Ok {
        let (u1, u2) = (r1->Ok_0, r2->Ok_0);
        assert(u1 == u2);
        assert(r1 == Ok::<(), Error>(u1));
        assert(r2 == Ok::<(), Error>(u2));
    }
}

} // verus!
