use acorn_storage::fat::{parse_boot_sector, FileSystem};
use acorn_storage::storage::DirEntry;
use acorn_storage::{Error, FileStorage, MemoryStorage};

struct Volume {
    bytes: Vec<u8>,
    bps: usize,
    bpc: usize,
    fat_offset: usize,
    data_offset: usize,
    width: u32,
}

fn boot(bps: u16, spc: u8, fatsz: u32, total: u32) -> Vec<u8> {
    let mut b = vec![0u8; 512];
    b[0..3].copy_from_slice(&[0xEB, 0x58, 0x90]);
    b[3..11].copy_from_slice(b"ACORNFS ");
    b[11..13].copy_from_slice(&bps.to_le_bytes());
    b[13] = spc;
    b[14..16].copy_from_slice(&1u16.to_le_bytes());
    b[16] = 1;
    b[21] = 0xF8;
    b[32..36].copy_from_slice(&total.to_le_bytes());
    b[36..40].copy_from_slice(&fatsz.to_le_bytes());
    b[44..48].copy_from_slice(&2u32.to_le_bytes());
    b[82..90].copy_from_slice(b"FAT32   ");
    b[510] = 0x55;
    b[511] = 0xAA;
    b
}

impl Volume {
    fn new(bps: u16, spc: u8, fatsz: u32, total: u32, width: u32, clusters_held: usize) -> Volume {
        let bps_n = bps as usize;
        let bpc = bps_n * spc as usize;
        let data_offset = (1 + fatsz as usize) * bps_n;
        let mut bytes = vec![0u8; data_offset + clusters_held * bpc];
        let b = boot(bps, spc, fatsz, total);
        bytes[..512].copy_from_slice(&b);
        Volume { bytes, bps: bps_n, bpc, fat_offset: bps_n, data_offset, width }
    }

    fn set_fat(&mut self, c: usize, v: u32) {
        match self.width {
            32 => {
                let o = self.fat_offset + 4 * c;
                self.bytes[o..o + 4].copy_from_slice(&v.to_le_bytes());
            }
            16 => {
                let o = self.fat_offset + 2 * c;
                self.bytes[o..o + 2].copy_from_slice(&(v as u16).to_le_bytes());
            }
            _ => {
                let o = self.fat_offset + c + c / 2;
                if c % 2 == 0 {
                    self.bytes[o] = (v & 0xFF) as u8;
                    self.bytes[o + 1] = (self.bytes[o + 1] & 0xF0) | ((v >> 8) & 0x0F) as u8;
                } else {
                    self.bytes[o] = (self.bytes[o] & 0x0F) | ((v & 0x0F) << 4) as u8;
                    self.bytes[o + 1] = (v >> 4) as u8;
                }
            }
        }
    }

    fn cluster(&self, c: usize) -> usize {
        self.data_offset + (c - 2) * self.bpc
    }

    fn set_slot(&mut self, k: usize, slot: &[u8; 32]) {
        let o = self.cluster(2) + 32 * k;
        self.bytes[o..o + 32].copy_from_slice(slot);
    }

    fn fill(&mut self, c: usize, data: &[u8]) {
        let o = self.cluster(c);
        self.bytes[o..o + data.len()].copy_from_slice(data);
    }

    fn mount(self) -> FileSystem<MemoryStorage> {
        assert!(self.bps >= 512);
        FileSystem::new(MemoryStorage::new(self.bytes)).unwrap()
    }
}

fn short(name: &[u8; 11], attr: u8, cluster: u32, size: u32) -> [u8; 32] {
    let mut s = [0u8; 32];
    s[..11].copy_from_slice(name);
    s[11] = attr;
    s[14..16].copy_from_slice(&0x1234u16.to_le_bytes());
    s[16..18].copy_from_slice(&0x5678u16.to_le_bytes());
    s[18..20].copy_from_slice(&0x4321u16.to_le_bytes());
    s[20..22].copy_from_slice(&((cluster >> 16) as u16).to_le_bytes());
    s[22..24].copy_from_slice(&0x1111u16.to_le_bytes());
    s[24..26].copy_from_slice(&0x2222u16.to_le_bytes());
    s[26..28].copy_from_slice(&(cluster as u16).to_le_bytes());
    s[28..32].copy_from_slice(&size.to_le_bytes());
    s
}

fn short_sum(name: &[u8; 11]) -> u8 {
    let mut sum: u8 = 0;
    for &b in name {
        sum = ((sum & 1) << 7).wrapping_add(sum >> 1).wrapping_add(b);
    }
    sum
}

fn long(ord: u8, units: &[u16], sum: u8) -> [u8; 32] {
    let mut s = [0u8; 32];
    s[0] = ord;
    s[11] = 0x0F;
    s[13] = sum;
    let places: [usize; 13] = [1, 3, 5, 7, 9, 14, 16, 18, 20, 22, 24, 28, 30];
    for (i, p) in places.iter().enumerate() {
        s[*p..*p + 2].copy_from_slice(&units[i].to_le_bytes());
    }
    s
}

fn units_of(text: &str) -> Vec<u16> {
    let mut u: Vec<u16> = text.encode_utf16().collect();
    if u.len() % 13 != 0 {
        u.push(0);
    }
    while u.len() % 13 != 0 {
        u.push(0xFFFF);
    }
    u
}

const LONG_SHORT: &[u8; 11] = b"LONGFI~1TXT";
const BAD_SHORT: &[u8; 11] = b"BADSUM  TXT";

/// A volume with 12-bit FAT entries, one sector per cluster, and a root
/// directory holding a label, files, long names, a free slot and an end.
fn sample() -> Volume {
    let mut v = Volume::new(512, 1, 1, 100, 12, 98);
    v.set_fat(2, 0xFFF);
    v.set_slot(0, &short(b"ACORN      ", 0x08, 0, 0));
    v.set_slot(1, &short(b"HELLO   TXT", 0x20, 3, 11));
    v.set_fat(3, 0xFFF);
    v.fill(3, b"hello world");
    let units = units_of("longfilename.txt");
    let sum = short_sum(LONG_SHORT);
    v.set_slot(2, &long(0x42, &units[13..26], sum));
    v.set_slot(3, &long(0x01, &units[0..13], sum));
    v.set_slot(4, &short(LONG_SHORT, 0x20, 4, 1000));
    v.set_fat(4, 5);
    v.set_fat(5, 0xFFF);
    let data: Vec<u8> = (0..1000u32).map(|i| (i % 251) as u8).collect();
    v.fill(4, &data[..512]);
    v.fill(5, &data[512..]);
    let mut free = short(b"GONE    TXT", 0x20, 0, 0);
    free[0] = 0xE5;
    v.set_slot(5, &free);
    v.set_slot(6, &short(b"CYCLE   BIN", 0x20, 6, 60000));
    v.set_fat(6, 6);
    v.set_slot(7, &long(0x41, &units_of("badsum.txt"), short_sum(BAD_SHORT) ^ 0x5A));
    v.set_slot(8, &short(BAD_SHORT, 0x20, 0, 0));
    v.set_slot(10, &short(b"AFTER   TXT", 0x20, 0, 0));
    v
}

fn stat(fs: &FileSystem<MemoryStorage>, index: u64) -> Result<DirEntry, Error> {
    let mut e = DirEntry::empty();
    fs.stat(index, 0, &mut e).map(|_| e)
}

#[test]
fn fat_stat_matches_listing() {
    let fs = sample().mount();
    let hello = stat(&fs, 1).unwrap();
    assert_eq!(hello.name(), "HELLO.TXT");
    assert_eq!(hello.index, 1);
    assert_eq!(hello.data_length, 11);
    assert_eq!(hello.created_at, 0x5678_1234);
    assert_eq!(hello.last_accessed, 0x4321_0000);
    assert_eq!(hello.last_modified, 0x2222_1111);
    let long = stat(&fs, 4).unwrap();
    assert_eq!(long.name(), "longfilename.txt");
    assert_eq!(long.data_length, 1000);
    let cycle = stat(&fs, 6).unwrap();
    assert_eq!(cycle.name(), "CYCLE.BIN");
}

#[test]
fn fat_stat_is_repeatable() {
    let fs = sample().mount();
    let a = stat(&fs, 4).unwrap();
    let b = stat(&fs, 4).unwrap();
    assert_eq!(a.name, b.name);
    assert_eq!(a.name_length, b.name_length);
    assert_eq!(a.data_length, b.data_length);
    assert_eq!(a.created_at, b.created_at);
    assert_eq!(a.last_modified, b.last_modified);
}

#[test]
fn fat_non_entries_are_file_index() {
    let fs = sample().mount();
    for k in [0u64, 2, 3, 5, 9, 10, 11] {
        assert_eq!(stat(&fs, k).err(), Some(Error::FileIndex), "slot {}", k);
    }
    let mut buf = [0u8; 1];
    assert_eq!(fs.read(10, 0, &mut buf), Err(Error::FileIndex));
    assert_eq!(fs.read(0, 0, &mut buf), Err(Error::FileIndex));
}

#[test]
fn fat_checksum_mismatch_is_rejected() {
    let fs = sample().mount();
    assert_eq!(stat(&fs, 8).err(), Some(Error::FileSystemInconsistency));
}

#[test]
fn fat_read_follows_chain() {
    let fs = sample().mount();
    let mut buf = [0u8; 11];
    fs.read(1, 0, &mut buf).unwrap();
    assert_eq!(&buf, b"hello world");
    let mut across = [0u8; 20];
    fs.read(4, 500, &mut across).unwrap();
    let expected: Vec<u8> = (500..520u32).map(|i| (i % 251) as u8).collect();
    assert_eq!(across.to_vec(), expected);
}

#[test]
fn fat_read_past_end_is_file_offset() {
    let fs = sample().mount();
    let mut one = [0u8; 1];
    assert_eq!(fs.read(1, 11, &mut one), Err(Error::FileOffset));
    assert_eq!(fs.read(1, 5000, &mut one), Err(Error::FileOffset));
    let mut many = [0u8; 12];
    assert_eq!(fs.read(1, 0, &mut many), Err(Error::FileOffset));
    let mut none = [0u8; 0];
    assert_eq!(fs.read(1, 11, &mut none), Err(Error::FileOffset));
}

#[test]
fn fat_cycle_is_inconsistent() {
    let fs = sample().mount();
    let mut buf = [0u8; 1];
    assert_eq!(fs.read(6, 98 * 512, &mut buf), Err(Error::FileSystemInconsistency));
}

#[test]
fn fat_end_marker_in_chain_is_inconsistent() {
    let fs = sample().mount();
    let mut buf = [0u8; 1];
    let mut v = sample();
    v.set_fat(4, 0xFF7);
    let bad = v.mount();
    assert_eq!(bad.read(4, 600, &mut buf), Err(Error::FileSystemInconsistency));
    fs.read(4, 600, &mut buf).unwrap();
    assert_eq!(buf[0], (600 % 251) as u8);
}

#[test]
fn fat_write_and_ctrl_are_refused() {
    let fs = sample().mount();
    assert_eq!(fs.write(1, 0, b"x"), Err(Error::ReadOnly));
    assert_eq!(fs.write(1, 100, b"x"), Err(Error::ReadOnly));
    assert_eq!(fs.write(50, 0, b"x"), Err(Error::ReadOnly));
    assert_eq!(fs.ctrl(1, &DirEntry::empty()), Err(Error::Unimplemented));
}

#[test]
fn fat_boot_signature_required() {
    let mut v = sample();
    v.bytes[510] = 0;
    assert!(matches!(FileSystem::new(MemoryStorage::new(v.bytes)), Err(Error::FileSystemInconsistency)));
    let mut w = sample();
    w.bytes[82] = b'X';
    assert!(matches!(FileSystem::new(MemoryStorage::new(w.bytes)), Err(Error::FileSystemInconsistency)));
}

#[test]
fn fat_cluster_size_is_derived() {
    let g = parse_boot_sector(&boot(512, 8, 1, 2 + 8 * 50)).unwrap();
    assert_eq!(g.bytes_per_cluster, 4096);
    assert_eq!(g.cluster_count, 50);
    assert_eq!(g.fat_width, 12);
    assert_eq!(g.data_offset, 1024);
    assert!(parse_boot_sector(&boot(500, 8, 1, 402)).is_err());
    assert!(parse_boot_sector(&boot(512, 3, 1, 402)).is_err());
}

#[test]
fn fat_eight_sector_clusters() {
    let mut v = Volume::new(512, 8, 1, 2 + 8 * 50, 12, 4);
    v.set_fat(2, 0xFFF);
    v.set_slot(0, &short(b"BIG     DAT", 0x20, 3, 5000));
    v.set_fat(3, 4);
    v.set_fat(4, 0xFFF);
    let data: Vec<u8> = (0..5000u32).map(|i| (i % 253) as u8).collect();
    v.fill(3, &data[..4096]);
    v.fill(4, &data[4096..]);
    let fs = v.mount();
    let mut buf = [0u8; 2];
    fs.read(0, 4095, &mut buf).unwrap();
    assert_eq!(buf, [(4095 % 253) as u8, (4096 % 253) as u8]);
}

#[test]
fn fat16_entries() {
    let mut v = Volume::new(512, 1, 256, 1 + 256 + 5000, 16, 4);
    v.set_fat(2, 0xFFFF);
    v.set_slot(0, &short(b"MID     DAT", 0x20, 3, 600));
    v.set_fat(3, 5);
    v.set_fat(5, 0xFFF8);
    v.fill(3, &[1u8; 512]);
    v.fill(5, &[2u8; 88]);
    let fs = v.mount();
    let mut buf = [0u8; 4];
    fs.read(0, 510, &mut buf).unwrap();
    assert_eq!(buf, [1, 1, 2, 2]);
}

#[test]
fn fat32_entries_ignore_high_bits() {
    let mut v = Volume::new(512, 1, 547, 1 + 547 + 70000, 32, 4);
    v.set_fat(2, 0x0FFF_FFFF);
    v.set_slot(0, &short(b"WIDE    DAT", 0x20, 3, 700));
    v.set_fat(3, 0xF000_0004);
    v.set_fat(4, 0x0FFF_FFF8);
    v.fill(3, &[7u8; 512]);
    v.fill(4, &[8u8; 188]);
    let fs = v.mount();
    let mut buf = [0u8; 2];
    fs.read(0, 511, &mut buf).unwrap();
    assert_eq!(buf, [7, 8]);
    let e = stat(&fs, 0).unwrap();
    assert_eq!(e.name(), "WIDE.DAT");
}

#[test]
fn fat_empty_read_past_chain_bound_is_inconsistent() {
    let fs = sample().mount();
    let mut none = [0u8; 0];
    assert_eq!(fs.read(6, 98 * 512, &mut none), Err(Error::FileSystemInconsistency));
    fs.read(6, 97 * 512, &mut none).unwrap();
}

#[test]
fn fat_errors_leave_buffer_alone() {
    let fs = sample().mount();
    let mut buf = [7u8; 4];
    assert_eq!(fs.read(6, 98 * 512, &mut buf), Err(Error::FileSystemInconsistency));
    assert_eq!(buf, [7u8; 4]);
    assert_eq!(fs.read(1, 10, &mut buf), Err(Error::FileOffset));
    assert_eq!(buf, [7u8; 4]);
    let mut e = DirEntry::empty();
    e.name = b"keep".to_vec();
    e.name_length = 4;
    e.data_length = 99;
    assert_eq!(fs.stat(8, 0, &mut e), Err(Error::FileSystemInconsistency));
    assert_eq!(e.name(), "keep");
    assert_eq!(e.data_length, 99);
}

#[test]
fn fat_ordinal_break_is_inconsistent() {
    let mut v = sample();
    let units = units_of("longfilename.txt");
    let sum = short_sum(LONG_SHORT);
    v.set_slot(3, &long(0x03, &units[0..13], sum));
    let fs = v.mount();
    assert_eq!(stat(&fs, 4).err(), Some(Error::FileSystemInconsistency));
    let mut w = sample();
    w.set_slot(2, &long(0x02, &units[13..26], sum));
    let fs2 = w.mount();
    assert_eq!(stat(&fs2, 4).err(), Some(Error::FileSystemInconsistency));
}

#[test]
fn fat_long_name_clipped_at_character() {
    let mut v = Volume::new(512, 1, 1, 100, 12, 98);
    v.set_fat(2, 0xFFF);
    let text: String = "é".repeat(130);
    let units = units_of(&text);
    let groups = units.len() / 13;
    let short_name_bytes: &[u8; 11] = b"EEEEEE~1TXT";
    let sum = short_sum(short_name_bytes);
    for g in 0..groups {
        let ord = (g + 1) as u8 | if g + 1 == groups { 0x40 } else { 0 };
        v.set_slot(groups - 1 - g, &long(ord, &units[13 * g..13 * g + 13], sum));
    }
    v.set_slot(groups, &short(short_name_bytes, 0x20, 0, 0));
    let fs = v.mount();
    let e = stat(&fs, groups as u64).unwrap();
    assert_eq!(e.name_length, 254);
    assert_eq!(e.name(), "é".repeat(127));
}

#[test]
fn fat_file_adapter_is_read_only() {
    let fs = sample().mount();
    let file = acorn_storage::File::new(fs, 1);
    let mut buf = [0u8; 5];
    acorn_storage::BlockStorage::read(&file, 6, &mut buf).unwrap();
    assert_eq!(&buf, b"world");
    assert_eq!(acorn_storage::BlockStorage::write(&file, 0, b"x"), Err(Error::ReadOnly));
}

#[test]
fn fat_full_root_directory_ends_at_chain_end() {
    let mut v = Volume::new(512, 1, 1, 100, 12, 98);
    v.set_fat(2, 0xFFF);
    for k in 0..16usize {
        let mut name = *b"FILE00  TXT";
        name[4] = b'0' + (k / 10) as u8;
        name[5] = b'0' + (k % 10) as u8;
        v.set_slot(k, &short(&name, 0x20, 0, 0));
    }
    let fs = v.mount();
    assert_eq!(stat(&fs, 15).unwrap().name(), "FILE15.TXT");
    assert_eq!(stat(&fs, 16).err(), Some(Error::FileIndex));
    assert_eq!(stat(&fs, 40).err(), Some(Error::FileIndex));
    let mut buf = [0u8; 1];
    assert_eq!(fs.read(16, 0, &mut buf), Err(Error::FileIndex));
}

#[test]
fn fat_bad_cluster_in_root_is_inconsistent() {
    let mut v = Volume::new(512, 1, 1, 100, 12, 98);
    v.set_fat(2, 0xFF7);
    for k in 0..16usize {
        v.set_slot(k, &short(b"SAME    TXT", 0x20, 0, 0));
    }
    let fs = v.mount();
    assert_eq!(stat(&fs, 16).err(), Some(Error::FileSystemInconsistency));
}
