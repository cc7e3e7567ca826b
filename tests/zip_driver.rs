use acorn_storage::storage::DirEntry;
use acorn_storage::zip::{find_last_signature, FileSystem, EOCD_SIG};
use acorn_storage::{BlockStorage, Error, File, FileStorage, MemoryStorage};

fn put16(v: &mut Vec<u8>, x: u16) {
    v.extend_from_slice(&x.to_le_bytes());
}

fn put32(v: &mut Vec<u8>, x: u32) {
    v.extend_from_slice(&x.to_le_bytes());
}

fn put64(v: &mut Vec<u8>, x: u64) {
    v.extend_from_slice(&x.to_le_bytes());
}

struct Member {
    name: &'static str,
    data: Vec<u8>,
    method: u16,
}

/// Local headers and data, then the central directory; returns the bytes,
/// the central directory's offset and its size.
fn body(members: &[Member]) -> (Vec<u8>, u32, u32) {
    let mut out = Vec::new();
    let mut offsets = Vec::new();
    for m in members {
        offsets.push(out.len() as u32);
        put32(&mut out, 0x04034b50);
        put16(&mut out, 20);
        put16(&mut out, 0);
        put16(&mut out, m.method);
        put16(&mut out, 0x6000);
        put16(&mut out, 0x5A21);
        put32(&mut out, 0);
        put32(&mut out, m.data.len() as u32);
        put32(&mut out, m.data.len() as u32);
        put16(&mut out, m.name.len() as u16);
        put16(&mut out, 3);
        out.extend_from_slice(m.name.as_bytes());
        out.extend_from_slice(&[9, 9, 9]);
        out.extend_from_slice(&m.data);
    }
    let cd = out.len() as u32;
    for (m, off) in members.iter().zip(offsets) {
        put32(&mut out, 0x02014b50);
        put16(&mut out, 20);
        put16(&mut out, 20);
        put16(&mut out, 0);
        put16(&mut out, m.method);
        put16(&mut out, 0x6000);
        put16(&mut out, 0x5A21);
        put32(&mut out, 0);
        put32(&mut out, m.data.len() as u32);
        put32(&mut out, m.data.len() as u32);
        put16(&mut out, m.name.len() as u16);
        put16(&mut out, 0);
        put16(&mut out, 0);
        put16(&mut out, 0);
        put16(&mut out, 0);
        put32(&mut out, 0);
        put32(&mut out, off);
        out.extend_from_slice(m.name.as_bytes());
    }
    let size = out.len() as u32 - cd;
    (out, cd, size)
}

fn archive(members: &[Member], comment: &[u8]) -> Vec<u8> {
    let (mut out, cd, size) = body(members);
    put32(&mut out, 0x06054b50);
    put16(&mut out, 0);
    put16(&mut out, 0);
    put16(&mut out, members.len() as u16);
    put16(&mut out, members.len() as u16);
    put32(&mut out, size);
    put32(&mut out, cd);
    put16(&mut out, comment.len() as u16);
    out.extend_from_slice(comment);
    out
}

fn zip64_archive(members: &[Member]) -> Vec<u8> {
    let (mut out, cd, size) = body(members);
    let record = out.len() as u64;
    put32(&mut out, 0x06064b50);
    put64(&mut out, 44);
    put16(&mut out, 45);
    put16(&mut out, 45);
    put32(&mut out, 0);
    put32(&mut out, 0);
    put64(&mut out, members.len() as u64);
    put64(&mut out, members.len() as u64);
    put64(&mut out, size as u64);
    put64(&mut out, cd as u64);
    put32(&mut out, 0x07064b50);
    put32(&mut out, 0);
    put64(&mut out, record);
    put32(&mut out, 1);
    put32(&mut out, 0x06054b50);
    put16(&mut out, 0xFFFF);
    put16(&mut out, 0xFFFF);
    put16(&mut out, 0xFFFF);
    put16(&mut out, 0xFFFF);
    put32(&mut out, 0xFFFF_FFFF);
    put32(&mut out, 0xFFFF_FFFF);
    put16(&mut out, 0);
    out
}

fn sample() -> Vec<Member> {
    vec![
        Member { name: "readme.txt", data: b"hello, archive".to_vec(), method: 0 },
        Member { name: "dir/data.bin", data: (0..=255u8).collect(), method: 0 },
        Member { name: "packed.gz", data: vec![1, 2, 3, 4], method: 8 },
    ]
}

fn mount(bytes: Vec<u8>) -> Result<FileSystem<MemoryStorage>, Error> {
    let size = bytes.len() as u64;
    FileSystem::new(MemoryStorage::new(bytes), size)
}

#[test]
fn zip_stat_lists_names_and_lengths() {
    let fs = mount(archive(&sample(), b"")).unwrap();
    let expected: [(&str, u64); 3] = [("readme.txt", 14), ("dir/data.bin", 256), ("packed.gz", 4)];
    for (i, (name, len)) in expected.iter().enumerate() {
        let mut e = DirEntry::empty();
        fs.stat(i as u64, 0, &mut e).unwrap();
        assert_eq!(e.index, i as u64);
        assert_eq!(e.name(), *name);
        assert_eq!(e.name_length as usize, name.len());
        assert_eq!(e.data_length, *len);
        assert_eq!(e.last_modified, 0x5A21_6000);
    }
}

#[test]
fn zip_stat_is_repeatable() {
    let fs = mount(archive(&sample(), b"")).unwrap();
    let mut a = DirEntry::empty();
    let mut b = DirEntry::empty();
    fs.stat(1, 0, &mut a).unwrap();
    fs.stat(1, 0, &mut b).unwrap();
    assert_eq!(a.index, b.index);
    assert_eq!(a.data_length, b.data_length);
    assert_eq!(a.last_modified, b.last_modified);
    assert_eq!(a.name_length, b.name_length);
    assert_eq!(a.name, b.name);
}

#[test]
fn zip_read_stored_data() {
    let fs = mount(archive(&sample(), b"")).unwrap();
    let mut buf = [0u8; 14];
    fs.read(0, 0, &mut buf).unwrap();
    assert_eq!(&buf, b"hello, archive");
    let mut part = [0u8; 4];
    fs.read(1, 100, &mut part).unwrap();
    assert_eq!(part, [100, 101, 102, 103]);
}

#[test]
fn zip_read_past_end_is_file_offset() {
    let fs = mount(archive(&sample(), b"")).unwrap();
    let mut buf = [0u8; 1];
    assert_eq!(fs.read(0, 14, &mut buf), Err(Error::FileOffset));
    assert_eq!(fs.read(0, 1000, &mut buf), Err(Error::FileOffset));
    let mut long = [0u8; 10];
    assert_eq!(fs.read(0, 10, &mut long), Err(Error::FileOffset));
    let mut empty = [0u8; 0];
    assert_eq!(fs.read(0, 14, &mut empty), Err(Error::FileOffset));
}

#[test]
fn zip_missing_index_is_file_index() {
    let fs = mount(archive(&sample(), b"")).unwrap();
    let mut e = DirEntry::empty();
    assert_eq!(fs.stat(3, 0, &mut e), Err(Error::FileIndex));
    let mut buf = [0u8; 1];
    assert_eq!(fs.read(7, 0, &mut buf), Err(Error::FileIndex));
}

#[test]
fn zip_compressed_entry_is_unimplemented() {
    let fs = mount(archive(&sample(), b"")).unwrap();
    let mut buf = [0u8; 2];
    assert_eq!(fs.read(2, 0, &mut buf), Err(Error::Unimplemented));
}

#[test]
fn zip_write_and_ctrl_are_refused() {
    let fs = mount(archive(&sample(), b"")).unwrap();
    assert_eq!(fs.write(0, 0, b"x"), Err(Error::ReadOnly));
    assert_eq!(fs.write(0, 100, b"x"), Err(Error::ReadOnly));
    assert_eq!(fs.write(9, 0, b"x"), Err(Error::ReadOnly));
    let e = DirEntry::empty();
    assert_eq!(fs.ctrl(0, &e), Err(Error::Unimplemented));
}

#[test]
fn zip_eocd_closes_archive_without_comment() {
    let bytes = archive(&sample(), b"");
    let n = bytes.len();
    assert_eq!(&bytes[n - 22..n - 18], &[0x50, 0x4B, 0x05, 0x06]);
    let window = &bytes[n - 512..];
    assert_eq!(find_last_signature(window, EOCD_SIG, 22), Some(512 - 22));
    assert!(mount(bytes).is_ok());
}

#[test]
fn zip_eocd_found_before_long_comment() {
    let comment = vec![b'c'; 1500];
    let fs = mount(archive(&sample(), &comment)).unwrap();
    let mut e = DirEntry::empty();
    fs.stat(0, 0, &mut e).unwrap();
    assert_eq!(e.name(), "readme.txt");
}

#[test]
fn zip_without_eocd_is_inconsistent() {
    let mut bytes = archive(&sample(), b"");
    let n = bytes.len();
    bytes[n - 22] = 0;
    assert!(matches!(mount(bytes), Err(Error::FileSystemInconsistency)));
    assert!(matches!(mount(vec![0u8; 10]), Err(Error::FileSystemInconsistency)));
    assert!(matches!(mount(Vec::new()), Err(Error::FileSystemInconsistency)));
}

#[test]
fn zip_bad_central_header_is_inconsistent() {
    let members = sample();
    let (_, cd, _) = body(&members);
    let mut bytes = archive(&members, b"");
    bytes[cd as usize] = 0;
    assert!(matches!(mount(bytes), Err(Error::FileSystemInconsistency)));
}

#[test]
fn zip_bad_local_header_is_inconsistent() {
    let mut bytes = archive(&sample(), b"");
    bytes[0] = 0;
    let fs = mount(bytes).unwrap();
    let mut buf = [0u8; 2];
    assert_eq!(fs.read(0, 0, &mut buf), Err(Error::FileSystemInconsistency));
}

#[test]
fn zip64_records_locate_directory() {
    let fs = mount(zip64_archive(&sample())).unwrap();
    let mut e = DirEntry::empty();
    fs.stat(1, 0, &mut e).unwrap();
    assert_eq!(e.name(), "dir/data.bin");
    let mut buf = [0u8; 3];
    fs.read(1, 10, &mut buf).unwrap();
    assert_eq!(buf, [10, 11, 12]);
    assert_eq!(fs.stat(3, 0, &mut e), Err(Error::FileIndex));
}

#[test]
fn zip64_without_locator_is_inconsistent() {
    let mut bytes = zip64_archive(&sample());
    let n = bytes.len();
    bytes[n - 22 - 20] = 0;
    assert!(matches!(mount(bytes), Err(Error::FileSystemInconsistency)));
}

#[test]
fn zip_mounted_inside_zip_file() {
    let inner = archive(&[Member { name: "inner.txt", data: b"nested".to_vec(), method: 0 }], b"");
    let inner_len = inner.len() as u64;
    let outer = archive(&[Member { name: "inner.zip", data: inner, method: 0 }], b"");
    let outer_fs = mount(outer).unwrap();
    let file = File::new(outer_fs, 0);
    let mut head = [0u8; 4];
    file.read(0, &mut head).unwrap();
    assert_eq!(head, [0x50, 0x4B, 0x03, 0x04]);
    assert_eq!(file.write(0, &head), Err(Error::ReadOnly));
    let inner_fs = FileSystem::new(file, inner_len).unwrap();
    let mut buf = [0u8; 6];
    inner_fs.read(0, 0, &mut buf).unwrap();
    assert_eq!(&buf, b"nested");
}

#[test]
fn memory_storage_reads_whole_ranges_only() {
    let dev = MemoryStorage::new(vec![1, 2, 3, 4, 5]);
    let mut buf = [0u8; 2];
    dev.read(3, &mut buf).unwrap();
    assert_eq!(buf, [4, 5]);
    assert_eq!(dev.read(4, &mut buf), Err(Error::FileOffset));
    assert_eq!(dev.read(u64::MAX, &mut buf), Err(Error::FileOffset));
    assert_eq!(dev.write(0, &buf), Err(Error::ReadOnly));
}

#[test]
fn find_last_signature_prefers_latest() {
    let w = [0x50, 0x4B, 0x05, 0x06, 0, 0x50, 0x4B, 0x05, 0x06, 0, 0];
    assert_eq!(find_last_signature(&w, EOCD_SIG, 4), Some(5));
    assert_eq!(find_last_signature(&w, EOCD_SIG, 7), Some(0));
    assert_eq!(find_last_signature(&w, EOCD_SIG, 22), None);
}

#[test]
fn zip_errors_leave_buffer_alone() {
    let mut bytes = archive(&sample(), b"");
    bytes[0] = 0;
    let fs = mount(bytes).unwrap();
    let mut buf = [5u8; 3];
    assert_eq!(fs.read(0, 0, &mut buf), Err(Error::FileSystemInconsistency));
    assert_eq!(buf, [5u8; 3]);
    assert_eq!(fs.read(1, 255, &mut buf), Err(Error::FileOffset));
    assert_eq!(buf, [5u8; 3]);
    let mut e = DirEntry::empty();
    e.data_length = 42;
    assert_eq!(fs.stat(9, 0, &mut e), Err(Error::FileIndex));
    assert_eq!(e.data_length, 42);
}

#[test]
fn zip_names_are_utf8_prefixes() {
    let fs = mount(archive(
        &[Member { name: "caf\u{e9}.txt", data: vec![1], method: 0 }],
        b"",
    ))
    .unwrap();
    let mut e = DirEntry::empty();
    fs.stat(0, 0, &mut e).unwrap();
    assert_eq!(e.name(), "caf\u{e9}.txt");
    let mut bytes = archive(&[Member { name: "abcdef", data: vec![1], method: 0 }], b"");
    let (_, cd, _) = body(&[Member { name: "abcdef", data: vec![1], method: 0 }]);
    bytes[cd as usize + 46 + 3] = 0xFF;
    let fs2 = mount(bytes).unwrap();
    fs2.stat(0, 0, &mut e).unwrap();
    assert_eq!(e.name(), "abc");
}

#[test]
fn zip_compressed_entry_with_bad_header_is_inconsistent() {
    let members = sample();
    let (body_bytes, _, _) = body(&members);
    let deflate_at = body_bytes
        .windows(4)
        .enumerate()
        .filter(|(_, w)| *w == [0x50, 0x4B, 0x03, 0x04])
        .map(|(i, _)| i)
        .nth(2)
        .unwrap();
    let mut bytes = archive(&members, b"");
    bytes[deflate_at] = 0;
    let fs = mount(bytes).unwrap();
    let mut buf = [0u8; 2];
    assert_eq!(fs.read(2, 0, &mut buf), Err(Error::FileSystemInconsistency));
}

#[test]
fn dir_entry_wire_form() {
    let mut e = DirEntry::empty();
    e.index = 0x0102;
    e.created_at = 3;
    e.last_accessed = 4;
    e.last_modified = 5;
    e.data_length = 0x0A0B0C0D;
    e.name = b"ab.txt".to_vec();
    e.name_length = 6;
    let b = e.to_bytes();
    assert_eq!(b.len(), 41 + 6);
    assert_eq!(&b[0..8], &[2, 1, 0, 0, 0, 0, 0, 0]);
    assert_eq!(b[8], 3);
    assert_eq!(b[16], 4);
    assert_eq!(b[24], 5);
    assert_eq!(&b[32..40], &[0x0D, 0x0C, 0x0B, 0x0A, 0, 0, 0, 0]);
    assert_eq!(b[40], 6);
    assert_eq!(&b[41..], b"ab.txt");
}
