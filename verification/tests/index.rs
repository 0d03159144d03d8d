use pack_index::index::{Entry, File, HashKind, Version};
use pack_index::write::write_v2;
use pack_index::Error;

fn entry(lead: u8, offset: u64, crc: u32) -> Entry {
    let mut oid = vec![lead; 20];
    oid[19] = lead.wrapping_add(1);
    Entry { oid, pack_offset: offset, crc32: Some(crc) }
}

fn be32(d: &[u8], i: usize) -> u32 {
    ((d[i] as u32) << 24) | ((d[i + 1] as u32) << 16) | ((d[i + 2] as u32) << 8) | (d[i + 3] as u32)
}

fn be64(d: &[u8], i: usize) -> u64 {
    let mut v: u64 = 0;
    let mut k = 0;
    while k < 8 {
        v = (v << 8) | (d[i + k] as u64);
        k += 1;
    }
    v
}

#[test]
fn version_default_and_hash() {
    assert_eq!(Version::default(), Version::V2);
    assert_eq!(Version::V1.hash(), HashKind::Sha1);
    assert_eq!(Version::V2.hash(), HashKind::Sha1);
}

#[test]
fn write_then_lookup_each_entry() {
    let e1 = entry(0x10, 0, 10);
    let e2 = entry(0x20, 999_999_999_999, 20);
    // handed out of order on purpose: the writer sorts
    let input = vec![e2.clone(), e1.clone()];
    let pack = vec![7u8; 20];
    let bytes = write_v2(&input, &pack).expect("no duplicates");
    let f = File::from_bytes(bytes, String::from("pack.idx")).expect("round trip parses");
    assert_eq!(f.version(), Version::V2);
    assert_eq!(f.num_objects(), 2);
    assert_eq!(f.path(), "pack.idx");
    let r1 = f.lookup(&e1.oid).expect("h1 present");
    assert_eq!(r1.oid, e1.oid);
    assert_eq!(r1.pack_offset, 0);
    assert_eq!(r1.crc32, Some(10));
    let r2 = f.lookup(&e2.oid).expect("h2 present");
    assert_eq!(r2.pack_offset, 999_999_999_999);
    assert_eq!(r2.crc32, Some(20));
    let absent = vec![0x55u8; 20];
    assert!(f.lookup(&absent).is_none());
}

#[test]
fn large_offset_gets_flag_and_table_row() {
    // the concrete scenario: two entries, the second past the 31-bit range
    let e1 = entry(0x10, 0, 10);
    let e2 = entry(0x20, 999_999_999_999, 20);
    let pack = vec![0u8; 20];
    let bytes = write_v2(&vec![e1.clone(), e2.clone()], &pack).unwrap();
    let n = 2usize;
    let ofs_base = 1032 + 24 * n;
    let w1 = be32(&bytes, ofs_base);
    let w2 = be32(&bytes, ofs_base + 4);
    assert_eq!(w1, 0, "small offset stored inline");
    assert!(w2 & 0x8000_0000 != 0, "large offset flagged");
    assert_eq!(w2 & 0x7fff_ffff, 0, "first large-offset row");
    let large_base = 1032 + 28 * n;
    assert_eq!(be64(&bytes, large_base), 999_999_999_999);
    // the whole file is the fixed part plus exactly one 8-byte row
    assert_eq!(bytes.len(), 1072 + 28 * n + 8);
}

#[test]
fn fan_table_is_cumulative_and_monotonic() {
    let e1 = entry(0x10, 1, 1);
    let e2 = entry(0x20, 2, 2);
    let e3 = entry(0x20, 3, 3);
    let mut e3 = e3;
    e3.oid[10] = 0xff; // distinct id, same leading byte as e2
    let bytes = write_v2(&vec![e3, e1, e2], &vec![0u8; 20]).unwrap();
    let f = File::from_bytes(bytes, String::new()).unwrap();
    assert_eq!(f.fan_value(0x0f), 0);
    assert_eq!(f.fan_value(0x10), 1);
    assert_eq!(f.fan_value(0x1f), 1);
    assert_eq!(f.fan_value(0x20), 3);
    assert_eq!(f.fan_value(255), 3);
    let mut prev = 0u32;
    for b in 0..256 {
        let v = f.fan_value(b);
        assert!(v >= prev, "fan never decreases");
        prev = v;
    }
    assert_eq!(prev, f.num_objects());
}

#[test]
fn traversal_is_ascending_and_restartable() {
    let e1 = entry(0x30, 5, 1);
    let e2 = entry(0x02, 6, 2);
    let e3 = entry(0xaa, 7, 3);
    let bytes = write_v2(&vec![e1.clone(), e2.clone(), e3.clone()], &vec![0u8; 20]).unwrap();
    let f = File::from_bytes(bytes, String::new()).unwrap();
    let all = f.entries();
    assert_eq!(all.len(), 3);
    assert_eq!(all[0].oid, e2.oid);
    assert_eq!(all[1].oid, e1.oid);
    assert_eq!(all[2].oid, e3.oid);
    assert!(all[0].oid < all[1].oid && all[1].oid < all[2].oid);
    assert_eq!(f.entries(), all, "a fresh traversal reproduces the sequence");
    for (i, e) in all.iter().enumerate() {
        assert_eq!(&f.entry_by_index(i as u32), e);
    }
}

#[test]
fn duplicate_ids_are_rejected() {
    let e1 = entry(0x10, 0, 1);
    let mut e2 = entry(0x10, 5, 2);
    e2.oid = e1.oid.clone();
    let r = write_v2(&vec![e1, e2], &vec![0u8; 20]);
    assert_eq!(r, Err(Error::DuplicateObject));
}

#[test]
fn signature_with_wrong_version_is_unsupported() {
    let mut bytes = vec![0u8; 1072];
    bytes[0] = 0xff;
    bytes[1] = b't';
    bytes[2] = b'O';
    bytes[3] = b'c';
    bytes[7] = 3; // version 3
    let r = File::from_bytes(bytes, String::new());
    assert_eq!(r.err(), Some(Error::UnsupportedVersion));
}

#[test]
fn non_monotonic_fan_is_corrupt() {
    let e1 = entry(0x10, 0, 1);
    let mut bytes = write_v2(&vec![e1], &vec![0u8; 20]).unwrap();
    // ruin the fan-out table: entry 0 claims more than entry 1
    bytes[8 + 3] = 9;
    bytes[12 + 3] = 0;
    let r = File::from_bytes(bytes, String::new());
    assert_eq!(r.err(), Some(Error::Corrupt));
}

#[test]
fn truncated_file_is_corrupt() {
    let r = File::from_bytes(vec![0u8; 100], String::new());
    assert_eq!(r.err(), Some(Error::Corrupt));
    let e1 = entry(0x10, 0, 1);
    let mut bytes = write_v2(&vec![e1], &vec![0u8; 20]).unwrap();
    bytes.pop();
    let r = File::from_bytes(bytes, String::new());
    assert_eq!(r.err(), Some(Error::Corrupt));
}

#[test]
fn checksum_detects_a_flipped_byte() {
    let e1 = entry(0x10, 3, 1);
    let e2 = entry(0x40, 4, 2);
    let bytes = write_v2(&vec![e1, e2], &vec![9u8; 20]).unwrap();
    let good = File::from_bytes(bytes.clone(), String::new()).unwrap();
    let digest = good.verify_checksum().expect("freshly written index verifies");
    assert_eq!(&bytes[bytes.len() - 20..], &digest[..]);
    let expected = sha1_smol::Sha1::from(&bytes[..bytes.len() - 20]).digest().bytes();
    assert_eq!(&digest[..], &expected[..]);
    let mut bad = bytes.clone();
    bad[1040] ^= 1; // a byte inside the id table
    let f = File::from_bytes(bad, String::new()).unwrap();
    assert_eq!(f.verify_checksum(), Err(Error::ChecksumMismatch));
}

#[test]
fn offsets_checked_against_archive_size() {
    let e1 = entry(0x10, 100, 1);
    let e2 = entry(0x20, 999_999_999_999, 2);
    let bytes = write_v2(&vec![e1, e2], &vec![0u8; 20]).unwrap();
    let f = File::from_bytes(bytes, String::new()).unwrap();
    assert!(f.verify_offsets(None).is_ok());
    assert!(f.verify_offsets(Some(1_000_000_000_000)).is_ok());
    assert_eq!(f.verify_offsets(Some(500)), Err(Error::Corrupt));
}

#[test]
fn version1_file_parses_and_looks_up() {
    // one record: 4-byte offset 42, then a zero id; every fan entry is 1
    let mut bytes = Vec::new();
    for _ in 0..256 {
        bytes.extend_from_slice(&[0, 0, 0, 1]);
    }
    bytes.extend_from_slice(&[0, 0, 0, 42]);
    bytes.extend_from_slice(&[0u8; 20]);
    bytes.extend_from_slice(&[0u8; 40]);
    assert_eq!(bytes.len(), 1024 + 24 + 40);
    let f = File::from_bytes(bytes, String::from("old.idx")).unwrap();
    assert_eq!(f.version(), Version::V1);
    assert_eq!(f.num_objects(), 1);
    let e = f.lookup(&vec![0u8; 20]).expect("the one record is found");
    assert_eq!(e.pack_offset, 42);
    assert_eq!(e.crc32, None, "no CRC table in version 1");
    assert!(f.lookup(&vec![1u8; 20]).is_none());
}

#[test]
fn pack_checksum_is_returned() {
    let e1 = entry(0x10, 0, 1);
    let pack = (0u8..20).collect::<Vec<u8>>();
    let bytes = write_v2(&vec![e1], &pack).unwrap();
    let f = File::from_bytes(bytes, String::new()).unwrap();
    assert_eq!(f.pack_checksum(), pack);
}
