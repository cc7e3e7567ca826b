//! Read-only FAT driver.
//!
//! The boot sector gives the volume's geometry; the FAT maps each cluster to
//! its successor. Entry `k` of the file index is the short entry in slot `k`
//! of the root directory, the chain of clusters that starts at the root
//! cluster; the long-name entries right before it supply its name.

use vstd::prelude::*;
use vstd::utf8::valid_utf8;
use crate::bytes::{le16, le32, lemma_le16_window, lemma_le32_window, read_le16, read_le32};
use crate::names::{
    checksum, name_units, short_checksum, short_name, short_text, slot_units, until_nul,
    utf16_to_utf8, utf8_of_utf16,
};
use crate::storage::{
    clipped_name, fill_entry, read_exact, BlockStorage, DirEntry, EntryInfo, Error, FileStorage,
};

verus! {

pub const BOOT_SECTOR_LEN: u64 = 512;
pub const SLOT_LEN: u64 = 32;

/// Cluster counts below this use 12-bit FAT entries.
pub const FAT12_LIMIT: u64 = 4085;
/// Cluster counts below this (and not below the 12-bit limit) use 16-bit FAT entries.
pub const FAT16_LIMIT: u64 = 65525;

/// The most clusters a volume can have: larger numbers are FAT markers.
pub const MAX_CLUSTERS: u64 = 0x0FFF_FFF5;

/// The layout of a volume, derived from its boot sector.
#[derive(Clone, Copy, Debug, PartialEq, Eq, Structural)]
pub struct Geometry {
    pub bytes_per_sector: u64,
    pub sectors_per_cluster: u64,
    pub bytes_per_cluster: u64,
    /// Byte offset of the first FAT.
    pub fat_offset: u64,
    /// Byte offset of cluster 2, the first cluster of the data region.
    pub data_offset: u64,
    pub cluster_count: u64,
    pub root_cluster: u64,
    /// Width of one FAT entry in bits: 12, 16 or 32.
    pub fat_width: u64,
}

pub open spec fn valid_sector_size(n: int) -> bool {
    n == 512 || n == 1024 || n == 2048 || n == 4096
}

pub open spec fn valid_cluster_sectors(n: int) -> bool {
    n == 1 || n == 2 || n == 4 || n == 8 || n == 16 || n == 32 || n == 64 || n == 128
}

/// The FAT entry width that a volume with `count` clusters uses.
pub open spec fn width_for(count: int) -> u64 {
    if count < FAT12_LIMIT {
        12
    } else if count < FAT16_LIMIT {
        16
    } else {
        32
    }
}

/// The geometry that boot sector `b` describes, where it is consistent: the
/// signature word `0x55 0xAA` ends it, the type label starts with "FAT", the
/// sector and cluster sizes are powers of two in range, the data region
/// fits in the volume and the root cluster lies in it.
pub open spec fn boot_geometry(b: Seq<u8>) -> Option<Geometry> {
    let bps = le16(b, 11);
    let spc = b[13] as int;
    let rsvd = le16(b, 14);
    let nfats = b[16] as int;
    let fatsz = if le16(b, 22) != 0 {
        le16(b, 22)
    } else {
        le32(b, 36)
    };
    let total = if le16(b, 19) != 0 {
        le16(b, 19)
    } else {
        le32(b, 32)
    };
    let data_sector = rsvd + nfats * fatsz;
    let count = (total - data_sector) / spc;
    let root = le32(b, 44);
    if b.len() == BOOT_SECTOR_LEN && b[510] == 0x55 && b[511] == 0xAA && b[82] == 0x46 && b[83]
        == 0x41 && b[84] == 0x54 && valid_sector_size(bps) && valid_cluster_sectors(spc)
        && data_sector <= total && count <= MAX_CLUSTERS && 2 <= root < count + 2 {
        Some(
            Geometry {
                bytes_per_sector: bps as u64,
                sectors_per_cluster: spc as u64,
                bytes_per_cluster: (bps * spc) as u64,
                fat_offset: (rsvd * bps) as u64,
                data_offset: (data_sector * bps) as u64,
                cluster_count: count as u64,
                root_cluster: root as u64,
                fat_width: width_for(count),
            },
        )
    } else {
        None
    }
}

/// Derives the geometry of a volume from its boot sector.
pub fn parse_boot_sector(b: &[u8]) -> (r: Result<Geometry, Error>)
    ensures
        r matches Ok(g) ==> boot_geometry(b@) == Some(g),
        r is Err ==> boot_geometry(b@) is None && r == Err::<Geometry, Error>(
            Error::FileSystemInconsistency,
        ),
{
    if b.len() != BOOT_SECTOR_LEN as usize || b[510] != 0x55 || b[511] != 0xAA || b[82] != 0x46
        || b[83] != 0x41 || b[84] != 0x54 {
        return Err(Error::FileSystemInconsistency);
    }
    let bps = read_le16(b, 11) as u64;
    let spc = b[13] as u64;
    if !(bps == 512 || bps == 1024 || bps == 2048 || bps == 4096) {
        return Err(Error::FileSystemInconsistency);
    }
    if !(spc == 1 || spc == 2 || spc == 4 || spc == 8 || spc == 16 || spc == 32 || spc == 64 || spc
        == 128) {
        return Err(Error::FileSystemInconsistency);
    }
    let rsvd = read_le16(b, 14) as u64;
    let nfats = b[16] as u64;
    let fatsz: u64 = if read_le16(b, 22) != 0 {
        read_le16(b, 22) as u64
    } else {
        read_le32(b, 36) as u64
    };
    let total: u64 = if read_le16(b, 19) != 0 {
        read_le16(b, 19) as u64
    } else {
        read_le32(b, 32) as u64
    };
    assert(nfats * fatsz <= 0xFF * 0xFFFF_FFFF) by (nonlinear_arith)
        requires
            nfats <= 0xFF,
            fatsz <= 0xFFFF_FFFF,
    ;
    let data_sector = rsvd + nfats * fatsz;
    if data_sector > total {
        return Err(Error::FileSystemInconsistency);
    }
    let count = (total - data_sector) / spc;
    let root = read_le32(b, 44) as u64;
    if count > MAX_CLUSTERS || root < 2 || root >= count + 2 {
        return Err(Error::FileSystemInconsistency);
    }
    assert(data_sector * bps <= 0xFFFF_FFFF * 4096) by (nonlinear_arith)
        requires
            data_sector <= total,
            total <= 0xFFFF_FFFF,
            bps <= 4096,
    ;
    assert(rsvd * bps <= 0xFFFF * 4096) by (nonlinear_arith)
        requires
            rsvd <= 0xFFFF,
            bps <= 4096,
    ;
    assert(bps * spc <= 4096 * 128) by (nonlinear_arith)
        requires
            bps <= 4096,
            spc <= 128,
    ;
    let width: u64 = if count < FAT12_LIMIT {
        12
    } else if count < FAT16_LIMIT {
        16
    } else {
        32
    };
    Ok(
        Geometry {
            bytes_per_sector: bps,
            sectors_per_cluster: spc,
            bytes_per_cluster: bps * spc,
            fat_offset: rsvd * bps,
            data_offset: data_sector * bps,
            cluster_count: count,
            root_cluster: root,
            fat_width: width,
        },
    )
}

/// Facts about a geometry that `boot_geometry` guarantees.
pub open spec fn geometry_ok(g: Geometry) -> bool {
    &&& valid_sector_size(g.bytes_per_sector as int)
    &&& valid_cluster_sectors(g.sectors_per_cluster as int)
    &&& g.bytes_per_cluster == g.bytes_per_sector * g.sectors_per_cluster
    &&& g.fat_offset <= 0xFFFF * 4096
    &&& g.data_offset <= 0xFFFF_FFFF * 4096
    &&& g.cluster_count <= MAX_CLUSTERS
    &&& g.fat_width == width_for(g.cluster_count as int)
    &&& 2 <= g.root_cluster < g.cluster_count + 2
}

proof fn lemma_boot_geometry_ok(b: Seq<u8>)
    requires
        boot_geometry(b) is Some,
    ensures
        geometry_ok(boot_geometry(b)->0),
{
    let bps = le16(b, 11);
    let spc = b[13] as int;
    let rsvd = le16(b, 14);
    let nfats = b[16] as int;
    let fatsz = if le16(b, 22) != 0 {
        le16(b, 22)
    } else {
        le32(b, 36)
    };
    let total = if le16(b, 19) != 0 {
        le16(b, 19)
    } else {
        le32(b, 32)
    };
    let data_sector = rsvd + nfats * fatsz;
    assert(0 <= nfats * fatsz) by (nonlinear_arith)
        requires
            0 <= nfats,
            0 <= fatsz,
    ;
    assert(rsvd * bps <= 0xFFFF * 4096) by (nonlinear_arith)
        requires
            0 <= rsvd <= 0xFFFF,
            0 <= bps <= 4096,
    ;
    assert(data_sector * bps <= 0xFFFF_FFFF * 4096) by (nonlinear_arith)
        requires
            0 <= data_sector <= total,
            total <= 0xFFFF_FFFF,
            0 <= bps <= 4096,
    ;
    assert(0 <= rsvd * bps) by (nonlinear_arith)
        requires
            0 <= rsvd,
            0 <= bps,
    ;
    assert(0 <= data_sector * bps) by (nonlinear_arith)
        requires
            0 <= data_sector,
            0 <= bps,
    ;
}

proof fn lemma_cluster_size(g: Geometry)
    requires
        geometry_ok(g),
    ensures
        512 <= g.bytes_per_cluster <= 4096 * 128,
        g.bytes_per_cluster % 512 == 0,
{
}

/// Whether cluster `c` lies in the data region.
pub open spec fn in_data(g: Geometry, c: int) -> bool {
    2 <= c < g.cluster_count + 2
}

/// Byte offset of the FAT entry of cluster `c`, and the number of bytes it spans.
pub open spec fn fat_entry_span(g: Geometry, c: int) -> (int, int) {
    if g.fat_width == 32 {
        (g.fat_offset + 4 * c, 4)
    } else if g.fat_width == 16 {
        (g.fat_offset + 2 * c, 2)
    } else {
        (g.fat_offset + c + c / 2, 2)
    }
}

/// The value of the FAT entry of cluster `c` on a device holding `s`.
pub open spec fn fat_entry(s: Seq<u8>, g: Geometry, c: int) -> int {
    let pos = fat_entry_span(g, c).0;
    if g.fat_width == 32 {
        le32(s, pos) % 0x1000_0000
    } else if g.fat_width == 16 {
        le16(s, pos)
    } else if c % 2 == 0 {
        le16(s, pos) % 0x1000
    } else {
        le16(s, pos) / 16
    }
}

/// The cluster reached from `start` by following `hops` links of the FAT.
/// Walks longer than the volume has clusters, links that leave the data
/// region (end-of-chain and bad-cluster markers among them) and entries that
/// lie past the device's end reach none.
pub open spec fn cluster_at(s: Seq<u8>, g: Geometry, start: int, hops: nat) -> Option<int>
    decreases hops,
{
    if !in_data(g, start) || hops >= g.cluster_count {
        None
    } else if hops == 0 {
        Some(start)
    } else if fat_entry_span(g, start).0 + fat_entry_span(g, start).1 > s.len() {
        None
    } else {
        cluster_at(s, g, fat_entry(s, g, start), (hops - 1) as nat)
    }
}

/// Whether FAT entry value `v` marks the end of a chain.
pub open spec fn is_chain_end(g: Geometry, v: int) -> bool {
    if g.fat_width == 32 {
        v >= 0x0FFF_FFF8
    } else if g.fat_width == 16 {
        v >= 0xFFF8
    } else {
        v >= 0xFF8
    }
}

/// Whether the walk of `hops` links from `start` stops because the chain
/// ends normally, at an end-of-chain marker, rather than at a bad cluster,
/// a link out of the data region or the cap on hops.
pub open spec fn chain_ends(s: Seq<u8>, g: Geometry, start: int, hops: nat) -> bool
    decreases hops,
{
    if !in_data(g, start) || hops >= g.cluster_count || hops == 0 {
        false
    } else if fat_entry_span(g, start).0 + fat_entry_span(g, start).1 > s.len() {
        false
    } else if is_chain_end(g, fat_entry(s, g, start)) {
        true
    } else {
        chain_ends(s, g, fat_entry(s, g, start), (hops - 1) as nat)
    }
}

/// Byte offset of the first byte of cluster `c`.
pub open spec fn cluster_offset(g: Geometry, c: int) -> int {
    g.data_offset + (c - 2) * g.bytes_per_cluster
}

/// Number of 32-byte directory slots in one cluster.
pub open spec fn slots_per_cluster(g: Geometry) -> int {
    g.bytes_per_cluster as int / SLOT_LEN as int
}

/// Byte offset of slot `k` of the root directory.
pub open spec fn slot_offset(s: Seq<u8>, g: Geometry, k: int) -> Option<int> {
    match cluster_at(s, g, g.root_cluster as int, (k / slots_per_cluster(g)) as nat) {
        Some(c) => Some(cluster_offset(g, c) + (k % slots_per_cluster(g)) * SLOT_LEN),
        None => None,
    }
}

/// The 32 bytes of slot `k` of the root directory, where the chain reaches it
/// and the device holds it.
pub open spec fn slot(s: Seq<u8>, g: Geometry, k: int) -> Option<Seq<u8>> {
    match slot_offset(s, g, k) {
        Some(p) => if p + SLOT_LEN <= s.len() {
            Some(s.subrange(p, p + SLOT_LEN))
        } else {
            None
        },
        None => None,
    }
}

/// Why slot `k` of the root directory cannot be read: past the end of a
/// chain that ends normally there are no more slots (`FileIndex`); any
/// other break of the chain is `FileSystemInconsistency`.
pub open spec fn missing_slot_error(s: Seq<u8>, g: Geometry, k: int) -> Error {
    if chain_ends(s, g, g.root_cluster as int, (k / slots_per_cluster(g)) as nat) {
        Error::FileIndex
    } else {
        Error::FileSystemInconsistency
    }
}

/// A slot whose first byte is zero ends the directory.
pub open spec fn is_end(b: Seq<u8>) -> bool {
    b[0] == 0
}

/// A slot whose first byte is `0xE5` is free.
pub open spec fn is_free(b: Seq<u8>) -> bool {
    b[0] == 0xE5
}

/// A long-name slot has the attribute bits read-only, hidden, system and volume.
pub open spec fn is_long(b: Seq<u8>) -> bool {
    b[11] % 0x40 == 0x0F
}

/// A volume label has the volume attribute bit.
pub open spec fn is_label(b: Seq<u8>) -> bool {
    (b[11] / 8) % 2 == 1
}

/// A slot that holds the short entry of a file or directory.
pub open spec fn is_short_entry(b: Seq<u8>) -> bool {
    !is_end(b) && !is_free(b) && !is_long(b) && !is_label(b)
}

/// How the scan of the root directory up to slot `k` ends: it fails at the
/// first slot before `k` that the chain does not reach (with `FileIndex`
/// where the chain ended normally, else `FileSystemInconsistency`), with
/// `FileIndex` at the first slot before `k` that ends the directory, and
/// otherwise reaches slot `k`.
pub open spec fn scan_outcome(s: Seq<u8>, g: Geometry, k: int) -> Result<(), Error>
    decreases k,
{
    if k <= 0 {
        Ok(())
    } else {
        match scan_outcome(s, g, k - 1) {
            Err(e) => Err(e),
            Ok(()) => match slot(s, g, k - 1) {
                None => Err(missing_slot_error(s, g, k - 1)),
                Some(b) => if is_end(b) {
                    Err(Error::FileIndex)
                } else {
                    Ok(())
                },
            },
        }
    }
}

/// The short entry in slot `k`, or why there is none: the scan's error, a
/// slot the chain does not reach, or a slot that holds no short entry.
pub open spec fn entry_outcome(s: Seq<u8>, g: Geometry, k: int) -> Result<Seq<u8>, Error> {
    match scan_outcome(s, g, k) {
        Err(e) => Err(e),
        Ok(()) => match slot(s, g, k) {
            None => Err(missing_slot_error(s, g, k)),
            Some(b) => if is_short_entry(b) {
                Ok(b)
            } else {
                Err(Error::FileIndex)
            },
        },
    }
}

/// The UTF-16 units of the long name of the short entry in slot `k`,
/// gathered from slot `k - j` backward. Slot `k - j` must be a long-name
/// slot with ordinal `j` and checksum `sum`; the slot whose ordinal has bit
/// 6 set is the last.
pub open spec fn long_units(s: Seq<u8>, g: Geometry, k: int, j: int, sum: int) -> Option<
    Seq<u16>,
>
    decreases 21 - j,
{
    if j < 1 || j > k || j > 20 {
        None
    } else {
        match slot(s, g, k - j) {
            Some(b) => if !is_long(b) || is_free(b) || b[0] % 0x40 != j || b[13] != sum {
                None
            } else if (b[0] / 0x40) % 2 == 1 {
                Some(slot_units(b))
            } else {
                match long_units(s, g, k, j + 1, sum) {
                    Some(rest) => Some(slot_units(b) + rest),
                    None => None,
                }
            },
            None => None,
        }
    }
}

/// Whether the slot before slot `k` starts a long name.
pub open spec fn has_long_name(s: Seq<u8>, g: Geometry, k: int) -> bool {
    k >= 1 && slot(s, g, k - 1) is Some && is_long(slot(s, g, k - 1)->0) && !is_free(
        slot(s, g, k - 1)->0,
    )
}

/// The name of the short entry `b` in slot `k`: its long name where long-name
/// slots precede it, else its short name. None where the long name is
/// inconsistent.
pub open spec fn entry_name(s: Seq<u8>, g: Geometry, k: int, b: Seq<u8>) -> Option<Seq<u8>> {
    if has_long_name(s, g, k) {
        match long_units(s, g, k, 1, short_checksum(b)) {
            Some(u) => utf8_of_utf16(until_nul(u)),
            None => None,
        }
    } else {
        Some(short_text(b))
    }
}

/// Where the data of the short entry `b` starts.
pub open spec fn first_cluster(b: Seq<u8>) -> int {
    le16(b, 20) * 0x1_0000 + le16(b, 26)
}

/// The metadata reported for the short entry `b` in slot `k` named `name`.
/// Times are the entry's FAT date in the high and its FAT time in the low
/// 16 bits.
pub open spec fn short_entry_info(k: u64, b: Seq<u8>, name: Seq<u8>) -> EntryInfo {
    EntryInfo {
        index: k,
        created_at: (le16(b, 16) * 0x1_0000 + le16(b, 14)) as u64,
        last_accessed: (le16(b, 18) * 0x1_0000) as u64,
        last_modified: (le16(b, 24) * 0x1_0000 + le16(b, 22)) as u64,
        data_length: le32(b, 28) as u64,
        name: clipped_name(name),
    }
}

/// The short entry in slot `k`, where the scan reaches it.
pub open spec fn short_entry(s: Seq<u8>, g: Geometry, k: int) -> Option<Seq<u8>> {
    match entry_outcome(s, g, k) {
        Ok(b) => Some(b),
        Err(_) => None,
    }
}

/// What `stat` of entry `k` gives: the metadata, or why there is none. A
/// long name that is inconsistent gives `FileSystemInconsistency`.
pub open spec fn stat_outcome(s: Seq<u8>, g: Geometry, k: u64) -> Result<EntryInfo, Error> {
    match entry_outcome(s, g, k as int) {
        Err(e) => Err(e),
        Ok(b) => match entry_name(s, g, k as int, b) {
            Some(name) => Ok(short_entry_info(k, b, name)),
            None => Err(Error::FileSystemInconsistency),
        },
    }
}

/// The metadata of entry `k` of the volume.
pub open spec fn volume_entry(s: Seq<u8>, g: Geometry, k: u64) -> Option<EntryInfo> {
    match stat_outcome(s, g, k) {
        Ok(info) => Some(info),
        Err(_) => None,
    }
}

/// The hop of the last cluster a read of `len` bytes at `offset` touches
/// (the hop of `offset` itself for an empty read).
pub open spec fn last_hop(offset: int, len: int, bpc: int) -> int {
    if len == 0 {
        offset / bpc
    } else {
        (offset + len - 1) / bpc
    }
}

/// The chain from `first` reaches a cluster at every hop from `lo` to `hi`.
pub open spec fn chain_reaches(s: Seq<u8>, g: Geometry, first: int, lo: int, hi: int) -> bool {
    forall|h: int| lo <= h <= hi ==> #[trigger] cluster_at(s, g, first, h as nat) is Some
}

/// What a read of `len` bytes at `offset` of entry `k` gives: the entry's
/// error, `FileOffset` for a range that leaves the data, and
/// `FileSystemInconsistency` where the chain does not reach a cluster the
/// range touches.
pub open spec fn read_outcome(s: Seq<u8>, g: Geometry, k: u64, offset: int, len: int) -> Result<
    (),
    Error,
> {
    match entry_outcome(s, g, k as int) {
        Err(e) => Err(e),
        Ok(b) => if offset >= le32(b, 28) || offset + len > le32(b, 28) {
            Err(Error::FileOffset)
        } else if chain_reaches(
            s,
            g,
            first_cluster(b),
            offset / g.bytes_per_cluster as int,
            last_hop(offset, len, g.bytes_per_cluster as int),
        ) {
            Ok(())
        } else {
            Err(Error::FileSystemInconsistency)
        },
    }
}

/// The bytes a volume needs on its device: its FAT entries and its data region.
pub open spec fn volume_end(g: Geometry) -> int {
    let fat_end = fat_entry_span(g, g.cluster_count + 1).0 + fat_entry_span(
        g,
        g.cluster_count + 1,
    ).1;
    let data_end = g.data_offset + g.cluster_count * g.bytes_per_cluster;
    if fat_end > data_end {
        fat_end
    } else {
        data_end
    }
}

/// One more link along a chain: from the cluster at hop `h`, hop `h + 1`
/// is reached exactly as one link from that cluster.
proof fn lemma_cluster_step(s: Seq<u8>, g: Geometry, start: int, h: nat, c: int)
    requires
        cluster_at(s, g, start, h) == Some(c),
        h + 1 < g.cluster_count,
    ensures
        cluster_at(s, g, start, h + 1) == cluster_at(s, g, c, 1),
    decreases h,
{
    if h > 0 {
        let n = fat_entry(s, g, start);
        lemma_cluster_step(s, g, n, (h - 1) as nat, c);
        assert(cluster_at(s, g, start, h + 1) == cluster_at(s, g, n, h));
    }
}

/// The FAT entry of a data cluster lies within `volume_end`.
proof fn lemma_fat_entry_in_volume(g: Geometry, c: int)
    requires
        in_data(g, c),
    ensures
        fat_entry_span(g, c).0 + fat_entry_span(g, c).1 <= volume_end(g),
{
    let m = g.cluster_count + 1;
    vstd::arithmetic::div_mod::lemma_div_is_ordered(c, m as int, 2);
}

/// A data cluster's bytes lie within `volume_end`.
proof fn lemma_cluster_in_volume(g: Geometry, c: int, within: int, len: int)
    requires
        in_data(g, c),
        0 <= within,
        0 <= len,
        within + len <= g.bytes_per_cluster,
    ensures
        cluster_offset(g, c) + within + len <= volume_end(g),
{
    let bpc = g.bytes_per_cluster as int;
    assert((c - 2) * bpc + bpc <= g.cluster_count * bpc) by (nonlinear_arith)
        requires
            c - 1 <= g.cluster_count,
            bpc >= 0,
    ;
}

/// Byte `p` of the file whose chain starts at `first`: zero where the chain
/// does not reach it.
pub open spec fn file_byte(s: Seq<u8>, g: Geometry, first: int, p: int) -> u8 {
    match cluster_at(s, g, first, (p / g.bytes_per_cluster as int) as nat) {
        Some(c) => s[cluster_offset(g, c) + p % g.bytes_per_cluster as int],
        None => 0,
    }
}

/// The data of entry `k` of the volume.
pub open spec fn volume_data(s: Seq<u8>, g: Geometry, k: u64) -> Seq<u8> {
    match short_entry(s, g, k as int) {
        Some(b) => Seq::new(le32(b, 28) as nat, |p: int| file_byte(s, g, first_cluster(b), p)),
        None => Seq::empty(),
    }
}

/// A mounted FAT volume.
pub struct FileSystem<S: BlockStorage> {
    storage: S,
    geo: Geometry,
}

impl<S: BlockStorage> FileSystem<S> {
    #[verifier::type_invariant]
    spec fn consistent(self) -> bool {
        geometry_ok(self.geo)
    }

    /// The device the volume lies on.
    pub closed spec fn device(&self) -> S {
        self.storage
    }

    /// The bytes of the volume.
    pub open spec fn image(&self) -> Seq<u8> {
        self.device().contents()
    }

    /// The layout read from the boot sector.
    pub closed spec fn geometry(&self) -> Geometry {
        self.geo
    }

    /// Mounts the volume on `storage`, reading its boot sector.
    pub fn new(storage: S) -> (r: Result<FileSystem<S>, Error>)
        ensures
            r matches Ok(fs) ==> fs.device() == storage && BOOT_SECTOR_LEN <= storage.contents().len()
                && boot_geometry(storage.contents().take(BOOT_SECTOR_LEN as int)) == Some(
                fs.geometry(),
            ),
            BOOT_SECTOR_LEN <= storage.contents().len() && boot_geometry(
                storage.contents().take(BOOT_SECTOR_LEN as int),
            ) is None ==> r is Err,
            storage.reliable() && BOOT_SECTOR_LEN <= storage.contents().len() ==> (r is Ok
                <==> boot_geometry(storage.contents().take(BOOT_SECTOR_LEN as int)) is Some) && (r is Err
                ==> r == Err::<FileSystem<S>, Error>(Error::FileSystemInconsistency)),
    {
        let b = read_exact(&storage, 0, BOOT_SECTOR_LEN as usize)?;
        assert(b@ =~= storage.contents().take(BOOT_SECTOR_LEN as int));
        let geo = parse_boot_sector(b.as_slice())?;
        proof {
            lemma_boot_geometry_ok(b@);
        }
        Ok(FileSystem { storage, geo })
    }

    /// The device is reliable and holds every byte the volume's FAT entries
    /// and data region occupy, so that only the volume's own structures
    /// decide what the driver returns.
    pub open spec fn dependable(&self) -> bool {
        self.device().reliable() && volume_end(self.geometry()) <= self.image().len()
    }

    /// The value of the FAT entry of cluster `c`.
    fn fat_entry_at(&self, c: u64) -> (r: Result<u64, Error>)
        requires
            in_data(self.geometry(), c as int),
        ensures
            r matches Ok(v) ==> fat_entry_span(self.geometry(), c as int).0 + fat_entry_span(
                self.geometry(),
                c as int,
            ).1 <= self.image().len() && v == fat_entry(self.image(), self.geometry(), c as int),
            self.dependable() ==> r is Ok,
    {
        proof {
            use_type_invariant(self);
            lemma_fat_entry_in_volume(self.geo, c as int);
        }
        let g = self.geo;
        let ghost s = self.image();
        if g.fat_width == 32 {
            let pos = g.fat_offset + 4 * c;
            let b = read_exact(&self.storage, pos, 4)?;
            proof {
                lemma_le32_window(s, pos as int, 4, 0);
            }
            Ok(read_le32(b.as_slice(), 0) as u64 % 0x1000_0000)
        } else {
            let pos = if g.fat_width == 16 {
                g.fat_offset + 2 * c
            } else {
                g.fat_offset + c + c / 2
            };
            let b = read_exact(&self.storage, pos, 2)?;
            proof {
                lemma_le16_window(s, pos as int, 2, 0);
            }
            let v = read_le16(b.as_slice(), 0) as u64;
            if g.fat_width == 16 {
                Ok(v)
            } else if c % 2 == 0 {
                Ok(v % 0x1000)
            } else {
                Ok(v / 16)
            }
        }
    }

    /// Follows `hops` links of the chain that starts at `start`.
    fn walk(&self, start: u64, hops: u64) -> (r: Result<u64, Error>)
        ensures
            r matches Ok(c) ==> cluster_at(self.image(), self.geometry(), start as int, hops as nat)
                == Some(c as int) && in_data(self.geometry(), c as int),
            self.dependable() ==> (r is Ok <==> cluster_at(
                self.image(),
                self.geometry(),
                start as int,
                hops as nat,
            ) is Some) && (r is Err ==> r == Err::<u64, Error>(
                if chain_ends(self.image(), self.geometry(), start as int, hops as nat) {
                    Error::FileIndex
                } else {
                    Error::FileSystemInconsistency
                },
            )),
    {
        proof {
            use_type_invariant(self);
        }
        let count = self.geo.cluster_count;
        if start < 2 || start >= count + 2 || hops >= count {
            return Err(Error::FileSystemInconsistency);
        }
        let mut c = start;
        let mut i: u64 = 0;
        while i < hops
            invariant
                i <= hops < count,
                count == self.geometry().cluster_count,
                geometry_ok(self.geometry()),
                in_data(self.geometry(), c as int),
                cluster_at(self.image(), self.geometry(), start as int, hops as nat) == cluster_at(
                    self.image(),
                    self.geometry(),
                    c as int,
                    (hops - i) as nat,
                ),
                chain_ends(self.image(), self.geometry(), start as int, hops as nat) == chain_ends(
                    self.image(),
                    self.geometry(),
                    c as int,
                    (hops - i) as nat,
                ),
            decreases hops - i,
        {
            let v = self.fat_entry_at(c)?;
            if v < 2 || v >= count + 2 {
                assert(cluster_at(self.image(), self.geometry(), v as int, (hops - i - 1) as nat)
                    is None);
                let w = self.geo.fat_width;
                if (w == 32 && v >= 0x0FFF_FFF8) || (w == 16 && v >= 0xFFF8) || (w == 12 && v
                    >= 0xFF8) {
                    return Err(Error::FileIndex);
                }
                assert(!chain_ends(self.image(), self.geometry(), v as int, (hops - i - 1) as nat));
                return Err(Error::FileSystemInconsistency);
            }
            c = v;
            i = i + 1;
        }
        Ok(c)
    }

    /// Reads slot `k` of the root directory.
    fn slot_at(&self, k: u64) -> (r: Result<Vec<u8>, Error>)
        ensures
            r matches Ok(b) ==> b@.len() == SLOT_LEN && slot(self.image(), self.geometry(), k as int)
                == Some(b@),
            self.dependable() ==> (r is Ok <==> slot(self.image(), self.geometry(), k as int)
                is Some) && (r is Err ==> r == Err::<Vec<u8>, Error>(
                missing_slot_error(self.image(), self.geometry(), k as int),
            )),
    {
        proof {
            use_type_invariant(self);
            lemma_cluster_size(self.geo);
        }
        let g = self.geo;
        let per = g.bytes_per_cluster / SLOT_LEN;
        let c = self.walk(g.root_cluster, k / per)?;
        let within = (k % per) * SLOT_LEN;
        assert((c - 2) * g.bytes_per_cluster <= MAX_CLUSTERS * (4096 * 128)) by (nonlinear_arith)
            requires
                0 <= c - 2 < MAX_CLUSTERS,
                g.bytes_per_cluster <= 4096 * 128,
        ;
        proof {
            assert(within + SLOT_LEN <= g.bytes_per_cluster) by (nonlinear_arith)
                requires
                    within == (k % per) * SLOT_LEN,
                    per == g.bytes_per_cluster / SLOT_LEN,
                    per > 0,
                    k % per < per,
                    g.bytes_per_cluster % 512 == 0,
            ;
            lemma_cluster_in_volume(g, c as int, within as int, SLOT_LEN as int);
        }
        let pos = g.data_offset + (c - 2) * g.bytes_per_cluster + within;
        let b = read_exact(&self.storage, pos, SLOT_LEN as usize)?;
        Ok(b)
    }

    /// Scans the root directory up to slot `k`.
    fn scan_to(&self, k: u64) -> (r: Result<(), Error>)
        ensures
            r is Ok ==> scan_outcome(self.image(), self.geometry(), k as int) == Ok::<(), Error>(()),
            self.dependable() ==> r == scan_outcome(self.image(), self.geometry(), k as int),
    {
        let mut j: u64 = 0;
        while j < k
            invariant
                j <= k,
                scan_outcome(self.image(), self.geometry(), j as int) == Ok::<(), Error>(()),
            decreases k - j,
        {
            let b = match self.slot_at(j) {
                Ok(b) => b,
                Err(e) => {
                    proof {
                        if self.dependable() {
                            lemma_scan_err_persists(self.image(), self.geometry(), j as int + 1, k as int);
                        }
                    }
                    return Err(e);
                },
            };
            if b[0] == 0 {
                proof {
                    lemma_scan_err_persists(self.image(), self.geometry(), j as int + 1, k as int);
                }
                return Err(Error::FileIndex);
            }
            j = j + 1;
        }
        Ok(())
    }

    /// Gathers the UTF-16 units of the long name of the short entry in slot `k`.
    fn long_name(&self, k: u64, sum: u8) -> (r: Result<Vec<u16>, Error>)
        ensures
            r matches Ok(u) ==> long_units(self.image(), self.geometry(), k as int, 1, sum as int)
                == Some(u@),
            self.dependable() ==> (r is Ok <==> long_units(
                self.image(),
                self.geometry(),
                k as int,
                1,
                sum as int,
            ) is Some) && (r is Err ==> r == Err::<Vec<u16>, Error>(
                Error::FileSystemInconsistency,
            )),
    {
        let ghost s = self.image();
        let ghost g = self.geometry();
        let mut acc: Vec<u16> = Vec::new();
        let mut j: u64 = 1;
        assert(forall|t: Seq<u16>| Seq::<u16>::empty() + t =~= t);
        loop
            invariant
                1 <= j <= 21,
                s == self.image(),
                g == self.geometry(),
                match long_units(s, g, k as int, j as int, sum as int) {
                    Some(rest) => long_units(s, g, k as int, 1, sum as int) == Some(acc@ + rest),
                    None => long_units(s, g, k as int, 1, sum as int) is None,
                },
            decreases 21 - j,
        {
            if j > k || j > 20 {
                return Err(Error::FileSystemInconsistency);
            }
            let b = match self.slot_at(k - j) {
                Ok(b) => b,
                Err(Error::FileIndex) => return Err(Error::FileSystemInconsistency),
                Err(e) => return Err(e),
            };
            if b[11] % 0x40 != 0x0F || b[0] == 0xE5 || (b[0] % 0x40) as u64 != j || b[13] != sum {
                return Err(Error::FileSystemInconsistency);
            }
            let units = name_units(b.as_slice());
            let ghost before = acc@;
            let mut t: usize = 0;
            while t < 13
                invariant
                    t <= 13,
                    units@.len() == 13,
                    acc@ == before + units@.take(t as int),
                decreases 13 - t,
            {
                acc.push(units[t]);
                t = t + 1;
                assert(acc@ =~= before + units@.take(t as int));
            }
            assert(units@.take(13) =~= units@);
            if (b[0] / 0x40) % 2 == 1 {
                assert(acc@ =~= before + units@ + Seq::<u16>::empty());
                return Ok(acc);
            }
            proof {
                if let Some(rest) = long_units(s, g, k as int, j + 1, sum as int) {
                    assert(before + (units@ + rest) =~= acc@ + rest);
                }
            }
            j = j + 1;
        }
    }

    /// Reads the short entry in slot `k`, after scanning the directory up to it.
    fn entry_slot(&self, k: u64) -> (r: Result<Vec<u8>, Error>)
        ensures
            r matches Ok(b) ==> b@.len() == SLOT_LEN && entry_outcome(
                self.image(),
                self.geometry(),
                k as int,
            ) == Ok::<Seq<u8>, Error>(b@),
            self.dependable() ==> match entry_outcome(self.image(), self.geometry(), k as int) {
                Ok(b) => r matches Ok(v) && v@ == b,
                Err(e) => r == Err::<Vec<u8>, Error>(e),
            },
    {
        self.scan_to(k)?;
        let b = self.slot_at(k)?;
        if b[0] == 0 || b[0] == 0xE5 || b[11] % 0x40 == 0x0F || (b[11] / 8) % 2 == 1 {
            return Err(Error::FileIndex);
        }
        Ok(b)
    }

    /// The name of the short entry `b` in slot `k`.
    fn name_of(&self, k: u64, b: &Vec<u8>) -> (r: Result<Vec<u8>, Error>)
        requires
            b@.len() == SLOT_LEN,
            entry_outcome(self.image(), self.geometry(), k as int) == Ok::<Seq<u8>, Error>(b@),
        ensures
            r matches Ok(n) ==> entry_name(self.image(), self.geometry(), k as int, b@) == Some(
                n@,
            ),
            self.dependable() ==> (r is Ok <==> entry_name(
                self.image(),
                self.geometry(),
                k as int,
                b@,
            ) is Some) && (r is Err ==> r == Err::<Vec<u8>, Error>(
                Error::FileSystemInconsistency,
            )),
    {
        proof {
            if k >= 1 {
                lemma_scan_slot_before(self.image(), self.geometry(), k as int);
            }
        }
        if k >= 1 {
            let p = self.slot_at(k - 1)?;
            if p[11] % 0x40 == 0x0F && p[0] != 0xE5 {
                let units = self.long_name(k, checksum(b.as_slice()))?;
                return match utf16_to_utf8(units.as_slice()) {
                    Some(v) => Ok(v),
                    None => Err(Error::FileSystemInconsistency),
                };
            }
        }
        Ok(short_name(b.as_slice()))
    }
}

/// Once the scan fails, it fails the same way for every later slot.
proof fn lemma_scan_err_persists(s: Seq<u8>, g: Geometry, j: int, k: int)
    requires
        0 < j <= k,
        scan_outcome(s, g, j) is Err,
    ensures
        scan_outcome(s, g, k) == scan_outcome(s, g, j),
    decreases k - j,
{
    if j < k {
        lemma_scan_err_persists(s, g, j, k - 1);
    }
}

/// Where the scan reaches slot `k`, the slot before it can be read.
proof fn lemma_scan_slot_before(s: Seq<u8>, g: Geometry, k: int)
    requires
        k >= 1,
        scan_outcome(s, g, k) == Ok::<(), Error>(()),
    ensures
        slot(s, g, k - 1) is Some,
{
}

/// Position `pos + t` lies `t` bytes further into the same cluster as `pos`.
proof fn lemma_same_cluster(pos: int, t: int, bpc: int)
    requires
        0 <= pos,
        0 <= t,
        bpc > 0,
        pos % bpc + t < bpc,
    ensures
        (pos + t) / bpc == pos / bpc,
        (pos + t) % bpc == pos % bpc + t,
{
    vstd::arithmetic::div_mod::lemma_fundamental_div_mod(pos, bpc);
    vstd::arithmetic::div_mod::lemma_mod_bound(pos, bpc);
    vstd::arithmetic::mul::lemma_mul_is_commutative(bpc, pos / bpc);
    assert(pos + t == (pos / bpc) * bpc + (pos % bpc + t));
    vstd::arithmetic::div_mod::lemma_fundamental_div_mod_converse(
        pos + t,
        bpc,
        pos / bpc,
        pos % bpc + t,
    );
}

/// The position right after the cluster that holds `pos` starts the next cluster.
proof fn lemma_next_cluster(pos: int, bpc: int)
    requires
        0 <= pos,
        bpc > 0,
    ensures
        (pos + (bpc - pos % bpc)) / bpc == pos / bpc + 1,
        (pos + (bpc - pos % bpc)) % bpc == 0,
{
    vstd::arithmetic::div_mod::lemma_fundamental_div_mod(pos, bpc);
    vstd::arithmetic::div_mod::lemma_mod_bound(pos, bpc);
    vstd::arithmetic::mul::lemma_mul_is_commutative(bpc, pos / bpc);
    let q = pos / bpc;
    assert((q + 1) * bpc == q * bpc + bpc) by (nonlinear_arith);
    vstd::arithmetic::div_mod::lemma_fundamental_div_mod_converse(
        pos + (bpc - pos % bpc),
        bpc,
        q + 1,
        0,
    );
}

impl<S: BlockStorage> FileStorage for FileSystem<S> {
    open spec fn entry(&self, index: u64) -> Option<EntryInfo> {
        volume_entry(self.image(), self.geometry(), index)
    }

    open spec fn data(&self, index: u64) -> Seq<u8> {
        volume_data(self.image(), self.geometry(), index)
    }

    open spec fn read_only(&self) -> bool {
        true
    }

    /// Owed success: a dependable device and a read that `read_outcome` accepts.
    open spec fn serves(&self, index: u64, offset: int, len: int) -> bool {
        self.dependable() && read_outcome(self.image(), self.geometry(), index, offset, len)
            == Ok::<(), Error>(())
    }

    /// Metadata cannot be changed on this driver.
    fn ctrl(&self, index: u64, buffer: &DirEntry) -> (r: Result<(), Error>)
        ensures
            r == Err::<(), Error>(Error::Unimplemented),
    {
        Err(Error::Unimplemented)
    }

    /// Reports entry `index` as `stat_outcome` describes it; `offset` is not
    /// used. On a dependable device the result is exactly that outcome; on
    /// every error the buffer is left as it was.
    fn stat(&self, index: u64, offset: u64, buffer: &mut DirEntry) -> (r: Result<(), Error>)
        ensures
            r is Ok ==> stat_outcome(self.image(), self.geometry(), index) == Ok::<
                EntryInfo,
                Error,
            >(final(buffer)@) && valid_utf8(final(buffer)@.name),
            self.dependable() ==> match stat_outcome(self.image(), self.geometry(), index) {
                Ok(_) => r is Ok,
                Err(e) => r == Err::<(), Error>(e),
            },
            r is Err ==> *final(buffer) == *old(buffer),
    {
        let b = self.entry_slot(index)?;
        let name = self.name_of(index, &b)?;
        let bs = b.as_slice();
        fill_entry(
            buffer,
            index,
            read_le16(bs, 16) as u64 * 0x1_0000 + read_le16(bs, 14) as u64,
            read_le16(bs, 18) as u64 * 0x1_0000,
            read_le16(bs, 24) as u64 * 0x1_0000 + read_le16(bs, 22) as u64,
            read_le32(bs, 28) as u64,
            name.as_slice(),
        );
        Ok(())
    }

    /// Follows the entry's cluster chain, one link per cluster, as
    /// `read_outcome` describes. On a dependable device the result is
    /// exactly that outcome; on every error the buffer is left as it was.
    fn read(&self, index: u64, offset: u64, buffer: &mut [u8]) -> (r: Result<(), Error>)
        ensures
            r is Ok ==> read_outcome(
                self.image(),
                self.geometry(),
                index,
                offset as int,
                old(buffer)@.len() as int,
            ) == Ok::<(), Error>(()),
            self.dependable() ==> r == read_outcome(
                self.image(),
                self.geometry(),
                index,
                offset as int,
                old(buffer)@.len() as int,
            ),
            r is Err ==> final(buffer)@ == old(buffer)@,
    {
        proof {
            use_type_invariant(self);
            lemma_cluster_size(self.geo);
        }
        let ghost s = self.image();
        let g = self.geo;
        let b = self.entry_slot(index)?;
        let size = read_le32(b.as_slice(), 28) as u64;
        let first = read_le16(b.as_slice(), 20) as u64 * 0x1_0000 + read_le16(b.as_slice(), 26) as u64;
        let n = buffer.len();
        let len = n as u64;
        if offset >= size || len > size - offset {
            return Err(Error::FileOffset);
        }
        let bpc = g.bytes_per_cluster;
        let lo = offset / bpc;
        let ghost hi = last_hop(offset as int, n as int, bpc as int);
        proof {
            if n > 0 {
                vstd::arithmetic::div_mod::lemma_div_is_ordered(offset as int, offset + n - 1, bpc as int);
            }
        }
        let mut c = match self.walk(first, lo) {
            Ok(c) => c,
            Err(e0) => {
                let e = if e0 == Error::FileIndex {
                    Error::FileSystemInconsistency
                } else {
                    e0
                };
                proof {
                    if self.dependable() {
                        if n > 0 {
                            vstd::arithmetic::div_mod::lemma_div_is_ordered(
                                offset as int,
                                offset + n - 1,
                                bpc as int,
                            );
                        }
                        assert(lo as int <= hi);
                        assert(cluster_at(s, g, first as int, (lo as int) as nat) is None);
                        if chain_reaches(s, g, first as int, lo as int, hi) {
                            let x: int = lo as int;
                            assert(lo as int <= x <= hi);
                            assert(cluster_at(s, g, first as int, x as nat) is Some);
                        }
                    }
                }
                return Err(e);
            },
        };
        let mut h = lo;
        let mut out: Vec<u8> = Vec::new();
        let mut i: usize = 0;
        while i < n
            invariant
                i <= n,
                n == old(buffer)@.len(),
                buffer@ == old(buffer)@,
                out@.len() == i,
                offset + n <= size,
                size <= 0xFFFF_FFFF,
                s == self.image(),
                g == self.geometry(),
                geometry_ok(g),
                bpc == g.bytes_per_cluster,
                512 <= bpc <= 4096 * 128,
                first == first_cluster(b@),
                lo == offset / bpc,
                hi == last_hop(offset as int, n as int, bpc as int),
                lo <= h <= hi,
                i < n ==> (offset + i) / bpc as int == h,
                i == n && n > 0 ==> (offset + n - 1) / bpc as int == h,
                n == 0 ==> h == lo,
                entry_outcome(s, g, index as int) == Ok::<Seq<u8>, Error>(b@),
                size == le32(b@, 28),
                cluster_at(s, g, first as int, h as nat) == Some(c as int),
                in_data(g, c as int),
                chain_reaches(s, g, first as int, lo as int, h as int),
                forall|j: int| 0 <= j < i ==> out@[j] == file_byte(s, g, first as int, offset + j),
            decreases n - i,
        {
            let pos = offset + i as u64;
            let within = pos % bpc;
            let room = bpc - within;
            let chunk: usize = if room < (n - i) as u64 {
                room as usize
            } else {
                n - i
            };
            assert((c - 2) * bpc <= MAX_CLUSTERS * (4096 * 128)) by (nonlinear_arith)
                requires
                    0 <= c - 2 < MAX_CLUSTERS,
                    bpc <= 4096 * 128,
            ;
            proof {
                lemma_cluster_in_volume(g, c as int, within as int, chunk as int);
            }
            let at = g.data_offset + (c - 2) * bpc + within;
            let tmp = read_exact(&self.storage, at, chunk)?;
            let start = i;
            let mut t: usize = 0;
            while t < chunk
                invariant
                    t <= chunk,
                    start + chunk <= n,
                    out@.len() == start + t,
                    tmp@.len() == chunk,
                    at + chunk <= s.len(),
                    tmp@ == s.subrange(at as int, at + chunk),
                    within + chunk <= bpc,
                    pos == offset + start,
                    at == cluster_offset(g, c as int) + within,
                    cluster_at(s, g, first as int, (pos / bpc) as nat) == Some(c as int),
                    within == pos % bpc,
                    bpc == g.bytes_per_cluster,
                    bpc > 0,
                    forall|j: int| 0 <= j < start + t ==> out@[j] == file_byte(s, g, first as int, offset + j),
                decreases chunk - t,
            {
                proof {
                    lemma_same_cluster(pos as int, t as int, bpc as int);
                    let q = offset + start + t;
                    assert(q == pos + t);
                    assert(file_byte(s, g, first as int, q) == s[at + t]);
                }
                out.push(tmp[t]);
                t = t + 1;
            }
            proof {
                lemma_same_cluster(pos as int, (chunk - 1) as int, bpc as int);
            }
            i = i + chunk;
            if i < n {
                proof {
                    lemma_next_cluster(pos as int, bpc as int);
                    vstd::arithmetic::div_mod::lemma_div_is_ordered(offset + i, offset + n - 1, bpc as int);
                }
                assert((offset + i) / bpc as int == h + 1);
                if h + 1 >= g.cluster_count {
                    proof {
                        assert(cluster_at(s, g, first as int, ((h + 1) as int) as nat) is None);
                        assert(!chain_reaches(s, g, first as int, lo as int, hi));
                    }
                    return Err(Error::FileSystemInconsistency);
                }
                proof {
                    lemma_cluster_step(s, g, first as int, h as nat, c as int);
                }
                let v = self.fat_entry_at(c)?;
                assert(cluster_at(s, g, v as int, 0) == cluster_at(s, g, c as int, 1));
                if v < 2 || v >= g.cluster_count + 2 {
                    proof {
                        assert(cluster_at(s, g, first as int, ((h + 1) as int) as nat) is None);
                        assert(!chain_reaches(s, g, first as int, lo as int, hi));
                    }
                    return Err(Error::FileSystemInconsistency);
                }
                proof {
                    assert(cluster_at(s, g, first as int, ((h + 1) as int) as nat) == Some(v as int));
                    assert forall|hh: int| lo <= hh <= h + 1 implies #[trigger] cluster_at(
                        s,
                        g,
                        first as int,
                        hh as nat,
                    ) is Some by {
                        if hh <= h {
                            assert(chain_reaches(s, g, first as int, lo as int, h as int));
                        }
                    }
                }
                c = v;
                h = h + 1;
            }
        }
        proof {
            assert(chain_reaches(s, g, first as int, lo as int, hi));
        }
        let mut k: usize = 0;
        while k < n
            invariant
                k <= n,
                n == old(buffer)@.len(),
                buffer@.len() == n,
                out@.len() == n,
                forall|j: int| 0 <= j < k ==> buffer@[j] == out@[j],
                forall|j: int| 0 <= j < n ==> out@[j] == file_byte(s, g, first as int, offset + j),
            decreases n - k,
        {
            buffer[k] = out[k];
            k = k + 1;
        }
        proof {
            let data = volume_data(s, g, index);
            assert(short_entry(s, g, index as int) == Some(b@));
            assert(data.len() == size);
            assert forall|j: int| 0 <= j < n implies buffer@[j] == data[offset + j] by {
                assert(buffer@[j] == out@[j]);
            }
            assert(buffer@ =~= data.subrange(offset as int, offset + n));
        }
        Ok(())
    }

    /// The volume is read-only.
    fn write(&self, index: u64, offset: u64, buffer: &[u8]) -> (r: Result<(), Error>)
        ensures
            r == Err::<(), Error>(Error::ReadOnly),
    {
        Err(Error::ReadOnly)
    }
}

/// A walk along a cluster chain never takes more links than the volume has
/// clusters: a chain that would need more, as a cycle does, reaches nothing.
pub proof fn lemma_walk_bounded(s: Seq<u8>, g: Geometry, start: int, hops: nat)
    requires
        hops >= g.cluster_count,
    ensures
        cluster_at(s, g, start, hops) is None,
{
}

/// The cluster size is the sector size times the sectors per cluster from
/// the boot sector: 512-byte sectors, 8 to a cluster, give 4096-byte clusters.
pub proof fn lemma_cluster_size_derived(b: Seq<u8>)
    requires
        boot_geometry(b) is Some,
    ensures
        boot_geometry(b)->0.bytes_per_cluster == le16(b, 11) * b[13],
        le16(b, 11) == 512 && b[13] == 8 ==> boot_geometry(b)->0.bytes_per_cluster == 4096,
{
    lemma_boot_geometry_ok(b);
}

/// Long-name slots tied to a short entry by a checksum that does not match
/// its short name are rejected: `stat` of the entry gives
/// `FileSystemInconsistency`, never the long name nor the short one.
pub proof fn lemma_checksum_mismatch_rejected(s: Seq<u8>, g: Geometry, k: u64, b: Seq<u8>)
    requires
        entry_outcome(s, g, k as int) == Ok::<Seq<u8>, Error>(b),
        has_long_name(s, g, k as int),
        slot(s, g, k - 1)->0[13] != short_checksum(b),
    ensures
        entry_name(s, g, k as int, b) is None,
        stat_outcome(s, g, k) == Err::<EntryInfo, Error>(Error::FileSystemInconsistency),
{
}

/// A long-name slot right before a short entry must carry ordinal 1; one
/// that does not breaks the descending order, and `stat` of the entry gives
/// `FileSystemInconsistency`.
pub proof fn lemma_ordinal_break_rejected(s: Seq<u8>, g: Geometry, k: u64, b: Seq<u8>)
    requires
        entry_outcome(s, g, k as int) == Ok::<Seq<u8>, Error>(b),
        has_long_name(s, g, k as int),
        slot(s, g, k - 1)->0[0] % 0x40 != 1,
    ensures
        stat_outcome(s, g, k) == Err::<EntryInfo, Error>(Error::FileSystemInconsistency),
{
}

/// A slot after the one that ends the directory holds no entry: `stat` and
/// `read` of it give `FileIndex`.
pub proof fn lemma_past_end_is_file_index(
    s: Seq<u8>,
    g: Geometry,
    j: int,
    k: u64,
    offset: int,
    len: int,
)
    requires
        0 <= j < k,
        scan_outcome(s, g, j) == Ok::<(), Error>(()),
        slot(s, g, j) matches Some(b) && is_end(b),
    ensures
        stat_outcome(s, g, k) == Err::<EntryInfo, Error>(Error::FileIndex),
        read_outcome(s, g, k, offset, len) == Err::<(), Error>(Error::FileIndex),
{
    lemma_scan_err_persists(s, g, j + 1, k as int);
}

/// A root directory whose chain ends normally before slot `j`, with no
/// zero slot earlier, holds no entry at `j` or after it: `stat` of any such
/// index gives `FileIndex`.
pub proof fn lemma_directory_end_is_file_index(s: Seq<u8>, g: Geometry, j: int, k: u64)
    requires
        0 <= j <= k,
        scan_outcome(s, g, j) == Ok::<(), Error>(()),
        slot(s, g, j) is None,
        chain_ends(s, g, g.root_cluster as int, (j / slots_per_cluster(g)) as nat),
    ensures
        stat_outcome(s, g, k) == Err::<EntryInfo, Error>(Error::FileIndex),
{
    if j < k {
        lemma_scan_err_persists(s, g, j + 1, k as int);
    }
}

/// Two `stat` calls on the same entry of an unchanged volume on a
/// dependable device give the same result, and on success the same
/// metadata.
pub proof fn lemma_stat_repeatable<S: BlockStorage>(
    fs: &FileSystem<S>,
    index: u64,
    r1: Result<(), Error>,
    b1: DirEntry,
    r2: Result<(), Error>,
    b2: DirEntry,
)
    requires
        fs.dependable(),
        r1 is Ok ==> stat_outcome(fs.image(), fs.geometry(), index) == Ok::<EntryInfo, Error>(b1@),
        r2 is Ok ==> stat_outcome(fs.image(), fs.geometry(), index) == Ok::<EntryInfo, Error>(b2@),
        match stat_outcome(fs.image(), fs.geometry(), index) {
            Ok(_) => r1 is Ok && r2 is Ok,
            Err(e) => r1 == Err::<(), Error>(e) && r2 == Err::<(), Error>(e),
        },
    ensures
        r1 == r2,
        r1 is Ok ==> b1@ == b2@,
{
    if r1 is Ok {
        let (u1, u2) = (r1->Ok_0, r2->Ok_0);
        assert(u1 == u2);
        assert(r1 == Ok::<(), Error>(u1));
        assert(r2 == Ok::<(), Error>(u2));
    }
}

/// A read whose range needs more links along the chain than the volume has
/// clusters, as on a chain that loops, gives `FileSystemInconsistency`.
pub proof fn lemma_long_chain_read_rejected(s: Seq<u8>, g: Geometry, k: u64, offset: int, len: int)
    requires
        geometry_ok(g),
        entry_outcome(s, g, k as int) matches Ok(b) && 0 <= offset < le32(b, 28) && offset + len
            <= le32(b, 28),
        0 <= len,
        offset / g.bytes_per_cluster as int >= g.cluster_count,
    ensures
        read_outcome(s, g, k, offset, len) == Err::<(), Error>(Error::FileSystemInconsistency),
{
    lemma_cluster_size(g);
    let b = entry_outcome(s, g, k as int)->Ok_0;
    let bpc = g.bytes_per_cluster as int;
    let lo = offset / bpc;
    if len > 0 {
        vstd::arithmetic::div_mod::lemma_div_is_ordered(offset, offset + len - 1, bpc);
    }
    assert(cluster_at(s, g, first_cluster(b), lo as nat) is None);
    if chain_reaches(s, g, first_cluster(b), lo, last_hop(offset, len, bpc)) {
        assert(cluster_at(s, g, first_cluster(b), lo as nat) is Some);
    }
}

/// A short entry preceded by one long-name slot with ordinal 1, marked last,
/// and the checksum of its short name is named by that slot's text.
pub proof fn lemma_long_name_single(s: Seq<u8>, g: Geometry, k: int, b: Seq<u8>)
    requires
        k >= 1,
        slot(s, g, k - 1) matches Some(l) && is_long(l) && l[0] == 0x41 && l[13]
            == short_checksum(b),
    ensures
        entry_name(s, g, k, b) == utf8_of_utf16(until_nul(slot_units(slot(s, g, k - 1)->0))),
{
    let l = slot(s, g, k - 1)->0;
    assert(long_units(s, g, k, 1, short_checksum(b)) == Some(slot_units(l)));
}

/// Two long-name slots in order (ordinal 2 marked last, then ordinal 1)
/// with the checksum of the short entry after them name it by their texts
/// joined, the slot with ordinal 1 first.
pub proof fn lemma_long_name_pair(s: Seq<u8>, g: Geometry, k: int, b: Seq<u8>)
    requires
        k >= 2,
        slot(s, g, k - 1) matches Some(l) && is_long(l) && l[0] == 0x01 && l[13]
            == short_checksum(b),
        slot(s, g, k - 2) matches Some(l) && is_long(l) && l[0] == 0x42 && l[13]
            == short_checksum(b),
    ensures
        entry_name(s, g, k, b) == utf8_of_utf16(
            until_nul(slot_units(slot(s, g, k - 1)->0) + slot_units(slot(s, g, k - 2)->0)),
        ),
{
    let sum = short_checksum(b);
    assert(long_units(s, g, k, 2, sum) == Some(slot_units(slot(s, g, k - 2)->0)));
    assert(long_units(s, g, k, 1, sum) == Some(
        slot_units(slot(s, g, k - 1)->0) + slot_units(slot(s, g, k - 2)->0),
    ));
}

} // verus!
