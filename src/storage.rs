//! Block devices, the file index interface that drivers serve, and the
//! adapter that turns one file of a driver back into a block device.

use vstd::prelude::*;
use vstd::utf8::{decode_utf8, valid_utf8};

verus! {

/// Why an operation on a device or a file system failed.
#[derive(Clone, Copy, Debug, PartialEq, Eq, Structural)]
pub enum Error {
    /// The operation is not supported by this driver.
    Unimplemented,
    /// The driver does not allow changes.
    ReadOnly,
    /// The index names no entry.
    FileIndex,
    /// The byte range lies outside the entry's data.
    FileOffset,
    /// The on-disk structures contradict their own rules.
    FileSystemInconsistency,
}

/// A byte-addressable device. A request is served whole or fails; there are
/// no short reads or writes.
pub trait BlockStorage {
    /// The bytes the device holds. A device written outside verified code
    /// that keeps this default is not described by the contract of `read`:
    /// for it that contract is an assumption, false whenever a read succeeds,
    /// and nothing proved about the bytes a driver reads holds of it.
    closed spec fn contents(&self) -> Seq<u8> {
        Seq::empty()
    }

    /// Whether every read that starts inside `contents` and ends within it
    /// succeeds. Devices that can fail for other reasons keep this default.
    closed spec fn reliable(&self) -> bool {
        false
    }

    /// Fills `buffer` with the bytes starting at `offset`.
    fn read(&self, offset: u64, buffer: &mut [u8]) -> (r: Result<(), Error>)
        ensures
            final(buffer)@.len() == old(buffer)@.len(),
            r is Ok ==> offset + old(buffer)@.len() <= self.contents().len() && final(buffer)@
                == self.contents().subrange(offset as int, offset + old(buffer)@.len()),
            self.reliable() && offset < self.contents().len() && offset + old(buffer)@.len()
                <= self.contents().len() ==> r is Ok,
    ;

    /// Stores `buffer` at `offset`.
    fn write(&self, offset: u64, buffer: &[u8]) -> (r: Result<(), Error>);
}

/// Reads `len` bytes at `offset` from `storage` into a new vector.
pub fn read_exact<S: BlockStorage>(storage: &S, offset: u64, len: usize) -> (r: Result<
    Vec<u8>,
    Error,
>)
    ensures
        r matches Ok(v) ==> offset + len <= storage.contents().len() && v@
            == storage.contents().subrange(offset as int, offset + len),
        storage.reliable() && offset < storage.contents().len() && offset + len
            <= storage.contents().len() ==> r is Ok,
{
    let mut v: Vec<u8> = vec![0u8; len];
    let res = storage.read(offset, v.as_mut_slice());
    match res {
        Ok(()) => Ok(v),
        Err(e) => Err(e),
    }
}

/// What a driver reports about one entry.
pub struct EntryInfo {
    pub index: u64,
    pub created_at: u64,
    pub last_accessed: u64,
    pub last_modified: u64,
    pub data_length: u64,
    pub name: Seq<u8>,
}

/// Metadata of one entry: a fixed header and the entry's name.
#[derive(Debug)]
pub struct DirEntry {
    pub index: u64,
    pub created_at: u64,
    pub last_accessed: u64,
    pub last_modified: u64,
    pub data_length: u64,
    pub name_length: u8,
    pub name: Vec<u8>,
}

/// Relies on core::str::from_utf8: it accepts exactly the well-formed UTF-8
/// byte sequences, and the text it returns holds the characters they encode.
#[verifier::external_body]
fn utf8_text(b: &[u8]) -> (r: Option<&str>)
    ensures
        r is Some <==> valid_utf8(b@),
        r matches Some(t) ==> t@ == decode_utf8(b@),
{
    core::str::from_utf8(b).ok()
}

/// The `n` low bytes of `v`, least significant first.
pub open spec fn le_bytes(v: int, n: nat) -> Seq<u8>
    decreases n,
{
    if n == 0 {
        Seq::empty()
    } else {
        seq![(v % 0x100) as u8] + le_bytes(v / 0x100, (n - 1) as nat)
    }
}

/// Appends the 8 little-endian bytes of `v` to `out`.
fn push_le64(out: &mut Vec<u8>, v: u64)
    ensures
        final(out)@ == old(out)@ + le_bytes(v as int, 8),
{
    let ghost start = out@;
    let mut x = v;
    let mut i: u64 = 0;
    while i < 8
        invariant
            i <= 8,
            out@ + le_bytes(x as int, (8 - i) as nat) == start + le_bytes(v as int, 8),
        decreases 8 - i,
    {
        let ghost before = out@;
        assert(le_bytes(x as int, (8 - i) as nat) == seq![(x % 0x100) as u8] + le_bytes(
            x as int / 0x100,
            (8 - i - 1) as nat,
        ));
        out.push((x % 0x100) as u8);
        assert(before + (seq![(x % 0x100) as u8] + le_bytes(x as int / 0x100, (8 - i - 1) as nat))
            =~= out@ + le_bytes(x as int / 0x100, (8 - i - 1) as nat));
        x = x / 0x100;
        i = i + 1;
    }
    assert(le_bytes(x as int, 0) =~= Seq::<u8>::empty());
    assert(out@ + Seq::<u8>::empty() =~= out@);
}

impl View for DirEntry {
    type V = EntryInfo;

    open spec fn view(&self) -> EntryInfo {
        EntryInfo {
            index: self.index,
            created_at: self.created_at,
            last_accessed: self.last_accessed,
            last_modified: self.last_modified,
            data_length: self.data_length,
            name: self.name@.take(self.name_length as int),
        }
    }
}

impl DirEntry {
    /// The name buffer holds at least `name_length` bytes.
    pub open spec fn wf(&self) -> bool {
        self.name_length as int <= self.name@.len()
    }

    /// An entry with every field zero and an empty name.
    pub fn empty() -> (r: DirEntry)
        ensures
            r.wf(),
            r@ == (EntryInfo {
                index: 0,
                created_at: 0,
                last_accessed: 0,
                last_modified: 0,
                data_length: 0,
                name: Seq::empty(),
            }),
    {
        let r = DirEntry {
            index: 0,
            created_at: 0,
            last_accessed: 0,
            last_modified: 0,
            data_length: 0,
            name_length: 0,
            name: Vec::new(),
        };
        assert(r@.name =~= Seq::<u8>::empty());
        r
    }

    /// The wire form of the entry: index, three times and data length as
    /// 8-byte little-endian fields, the name length as one byte, then the
    /// name.
    pub fn to_bytes(&self) -> (r: Vec<u8>)
        requires
            self.wf(),
        ensures
            r@ == le_bytes(self.index as int, 8) + le_bytes(self.created_at as int, 8) + le_bytes(
                self.last_accessed as int,
                8,
            ) + le_bytes(self.last_modified as int, 8) + le_bytes(self.data_length as int, 8)
                + seq![self.name_length] + self@.name,
    {
        let mut r: Vec<u8> = Vec::new();
        push_le64(&mut r, self.index);
        push_le64(&mut r, self.created_at);
        push_le64(&mut r, self.last_accessed);
        push_le64(&mut r, self.last_modified);
        push_le64(&mut r, self.data_length);
        r.push(self.name_length);
        let n = self.name_length as usize;
        let ghost head = r@;
        let mut i: usize = 0;
        while i < n
            invariant
                i <= n,
                n <= self.name@.len(),
                n == self.name_length,
                r@ == head + self.name@.take(i as int),
            decreases n - i,
        {
            r.push(self.name[i]);
            i = i + 1;
            assert(r@ =~= head + self.name@.take(i as int));
        }
        assert(r@ =~= le_bytes(self.index as int, 8) + le_bytes(self.created_at as int, 8) + le_bytes(
            self.last_accessed as int,
            8,
        ) + le_bytes(self.last_modified as int, 8) + le_bytes(self.data_length as int, 8)
            + seq![self.name_length] + self@.name);
        r
    }

    /// The entry's name as text.
    pub fn name(&self) -> (r: &str)
        requires
            self.wf(),
            valid_utf8(self@.name),
        ensures
            r@ == decode_utf8(self@.name),
    {
        let n = self.name_length as usize;
        let bytes = vstd::slice::slice_subrange(self.name.as_slice(), 0, n);
        assert(bytes@ =~= self@.name);
        match utf8_text(bytes) {
            Some(t) => t,
            None => "",
        }
    }
}

/// The longest name a `DirEntry` holds.
pub const NAME_MAX: usize = 255;

/// The longest prefix of `name`, at most `k` bytes, that is well-formed UTF-8.
pub open spec fn utf8_prefix_len(name: Seq<u8>, k: int) -> int
    decreases k,
{
    if k <= 0 {
        0
    } else if valid_utf8(name.take(k)) {
        k
    } else {
        utf8_prefix_len(name, k - 1)
    }
}

/// `name` cut to the longest prefix of at most `NAME_MAX` bytes that is
/// well-formed UTF-8: the name a `DirEntry` holds.
pub open spec fn clipped_name(name: Seq<u8>) -> Seq<u8> {
    name.take(
        utf8_prefix_len(
            name,
            if name.len() <= NAME_MAX {
                name.len() as int
            } else {
                NAME_MAX as int
            },
        ),
    )
}

proof fn lemma_utf8_prefix(name: Seq<u8>, k: int)
    requires
        0 <= k <= name.len(),
    ensures
        0 <= utf8_prefix_len(name, k) <= k,
        valid_utf8(name.take(utf8_prefix_len(name, k))),
    decreases k,
{
    if k <= 0 {
        assert(name.take(0) =~= Seq::<u8>::empty());
    } else if !valid_utf8(name.take(k)) {
        lemma_utf8_prefix(name, k - 1);
    }
}

/// A clipped name is well-formed UTF-8.
pub proof fn lemma_clipped_name_utf8(name: Seq<u8>)
    ensures
        valid_utf8(clipped_name(name)),
        clipped_name(name).len() <= NAME_MAX,
{
    let k = if name.len() <= NAME_MAX {
        name.len() as int
    } else {
        NAME_MAX as int
    };
    lemma_utf8_prefix(name, k);
}

/// A name of at most `NAME_MAX` bytes that is well-formed UTF-8 is kept
/// whole.
pub proof fn lemma_clipped_name_whole(name: Seq<u8>)
    requires
        name.len() <= NAME_MAX,
        valid_utf8(name),
    ensures
        clipped_name(name) == name,
{
    if name.len() > 0 {
        assert(name.take(name.len() as int) =~= name);
    } else {
        assert(name.take(0) =~= name);
    }
}

/// Writes metadata into `buffer`, keeping at most `NAME_MAX` bytes of the name.
pub fn fill_entry(
    buffer: &mut DirEntry,
    index: u64,
    created_at: u64,
    last_accessed: u64,
    last_modified: u64,
    data_length: u64,
    name: &[u8],
)
    ensures
        final(buffer).wf(),
        valid_utf8(final(buffer)@.name),
        final(buffer)@ == (EntryInfo {
            index,
            created_at,
            last_accessed,
            last_modified,
            data_length,
            name: clipped_name(name@),
        }),
{
    let n = name.len();
    let mut k: usize = if n <= NAME_MAX {
        n
    } else {
        NAME_MAX
    };
    let ghost top = k as int;
    while k > 0 && utf8_text(vstd::slice::slice_subrange(name, 0, k)).is_none()
        invariant
            k <= top <= n,
            n == name@.len(),
            top == (if n <= NAME_MAX { n as int } else { NAME_MAX as int }),
            utf8_prefix_len(name@, k as int) == utf8_prefix_len(name@, top),
        decreases k,
    {
        assert(name@.subrange(0, k as int) =~= name@.take(k as int));
        k = k - 1;
    }
    proof {
        if k > 0 {
            assert(name@.subrange(0, k as int) =~= name@.take(k as int));
        }
        lemma_clipped_name_utf8(name@);
    }
    let mut v: Vec<u8> = Vec::new();
    let mut i: usize = 0;
    while i < k
        invariant
            i <= k <= n,
            n == name@.len(),
            v@ == name@.take(i as int),
        decreases k - i,
    {
        v.push(name[i]);
        i = i + 1;
        assert(v@ =~= name@.take(i as int));
    }
    buffer.index = index;
    buffer.created_at = created_at;
    buffer.last_accessed = last_accessed;
    buffer.last_modified = last_modified;
    buffer.data_length = data_length;
    buffer.name_length = k as u8;
    buffer.name = v;
    assert(buffer@.name =~= clipped_name(name@));
}

/// The interface every driver serves: entries addressed by index, each with
/// metadata and data.
pub trait FileStorage {
    /// The entry at `index`, where one exists and its metadata can be read.
    /// A driver written outside verified code that keeps this default is not
    /// described by the contract of `stat`: for it that contract is an
    /// assumption, false whenever a `stat` succeeds.
    closed spec fn entry(&self, index: u64) -> Option<EntryInfo> {
        None
    }

    /// The data of the entry at `index`. A driver written outside verified
    /// code that keeps this default is not described by the contract of
    /// `read`: for it that contract is an assumption, false whenever a read
    /// of a non-empty range succeeds.
    closed spec fn data(&self, index: u64) -> Seq<u8> {
        Seq::empty()
    }

    /// Whether the driver refuses every change. Drivers that accept changes
    /// keep this default.
    closed spec fn read_only(&self) -> bool {
        false
    }

    /// Whether a read of `len` bytes at `offset` of the entry at `index` is
    /// owed success. Drivers that promise none keep this default.
    closed spec fn serves(&self, index: u64, offset: int, len: int) -> bool {
        false
    }

    /// Applies a metadata update to the entry at `index`.
    fn ctrl(&self, index: u64, buffer: &DirEntry) -> (r: Result<(), Error>);

    /// Fills `buffer` with the metadata of the entry at `index`.
    fn stat(&self, index: u64, offset: u64, buffer: &mut DirEntry) -> (r: Result<(), Error>)
        ensures
            r is Ok ==> final(buffer).wf() && self.entry(index) == Some(final(buffer)@),
    ;

    /// Fills `buffer` with the entry's data starting at `offset`.
    fn read(&self, index: u64, offset: u64, buffer: &mut [u8]) -> (r: Result<(), Error>)
        ensures
            final(buffer)@.len() == old(buffer)@.len(),
            r is Ok ==> offset + old(buffer)@.len() <= self.data(index).len() && final(buffer)@
                == self.data(index).subrange(offset as int, offset + old(buffer)@.len()),
            self.serves(index, offset as int, old(buffer)@.len() as int) ==> r is Ok,
    ;

    /// Stores `buffer` in the entry's data at `offset`.
    fn write(&self, index: u64, offset: u64, buffer: &[u8]) -> (r: Result<(), Error>)
        ensures
            self.read_only() ==> r == Err::<(), Error>(Error::ReadOnly),
    ;
}

/// One entry of a file system, seen as a block device of its own, so that
/// another file system can be mounted on top of it.
pub struct File<S: FileStorage> {
    storage: S,
    index: u64,
}

impl<S: FileStorage> File<S> {
    pub fn new(storage: S, index: u64) -> (r: File<S>)
        ensures
            r.storage() == storage,
            r.index() == index,
    {
        File { storage, index }
    }

    pub closed spec fn storage(&self) -> S {
        self.storage
    }

    pub closed spec fn index(&self) -> u64 {
        self.index
    }
}

impl<S: FileStorage> BlockStorage for File<S> {
    open spec fn contents(&self) -> Seq<u8> {
        self.storage().data(self.index())
    }

    /// The file is reliable where its driver owes success to every read
    /// inside its data.
    open spec fn reliable(&self) -> bool {
        forall|o: int, l: int|
            0 <= o < self.contents().len() && 0 <= l && o + l <= self.contents().len()
                ==> #[trigger] self.storage().serves(self.index(), o, l)
    }

    fn read(&self, offset: u64, buffer: &mut [u8]) -> (r: Result<(), Error>) {
        self.storage.read(self.index, offset, buffer)
    }

    fn write(&self, offset: u64, buffer: &[u8]) -> (r: Result<(), Error>)
        ensures
            self.storage().read_only() ==> r == Err::<(), Error>(Error::ReadOnly),
    {
        self.storage.write(self.index, offset, buffer)
    }
}

/// A device whose bytes are held in memory. It does not accept writes.
pub struct MemoryStorage {
    bytes: Vec<u8>,
}

impl MemoryStorage {
    pub fn new(bytes: Vec<u8>) -> (r: MemoryStorage)
        ensures
            r.contents() == bytes@,
    {
        MemoryStorage { bytes }
    }
}

impl BlockStorage for MemoryStorage {
    closed spec fn contents(&self) -> Seq<u8> {
        self.bytes@
    }

    open spec fn reliable(&self) -> bool {
        true
    }

    /// Fails with `FileOffset` exactly when the range runs past the end.
    fn read(&self, offset: u64, buffer: &mut [u8]) -> (r: Result<(), Error>)
        ensures
            r is Ok <==> offset + old(buffer)@.len() <= self.contents().len(),
            r is Err ==> r == Err::<(), Error>(Error::FileOffset),
    {
        let n = buffer.len();
        let len = self.bytes.len();
        if offset > len as u64 || n > len - offset as usize {
            return Err(Error::FileOffset);
        }
        let start = offset as usize;
        let mut i: usize = 0;
        while i < n
            invariant
                i <= n,
                n == old(buffer)@.len(),
                start + n <= len,
                len == self.bytes@.len(),
                buffer@.len() == n,
                forall|j: int| 0 <= j < i ==> buffer@[j] == self.bytes@[start + j],
            decreases n - i,
        {
            buffer[i] = self.bytes[start + i];
            i = i + 1;
        }
        assert(buffer@ =~= self.bytes@.subrange(start as int, start + n));
        Ok(())
    }

    fn write(&self, offset: u64, buffer: &[u8]) -> (r: Result<(), Error>)
        ensures
            r == Err::<(), Error>(Error::ReadOnly),
    {
        Err(Error::ReadOnly)
    }
}

} // verus!
