//! End-to-end behaviour of the reader over hand-built database images.

use tchread::bytes::{Endian, Width};
use tchread::format::RecordOffset;
use tchread::load::load_with_endian;
use tchread::record::{Lazy, Record, RecordSpace};
use tchread::vnum::VNum;
use tchread::TchdbError;
use tchread::TCHDB;

fn vnum(mut v: u32) -> Vec<u8> {
    let mut out = Vec::new();
    loop {
        if v < 128 {
            out.push(v as u8);
            return out;
        }
        out.push(255 - (v % 128) as u8);
        v /= 128;
    }
}

fn header(ap: u8, fbp: u8, options: u8, bn: u64, rn: u64, fsize: u64, first: u64) -> Vec<u8> {
    let mut h = vec![0u8; 256];
    h[..13].copy_from_slice(b"ToKyO CaBiNeT");
    h[34] = ap;
    h[35] = fbp;
    h[36] = options;
    h[40..48].copy_from_slice(&bn.to_le_bytes());
    h[48..56].copy_from_slice(&rn.to_le_bytes());
    h[56..64].copy_from_slice(&fsize.to_le_bytes());
    h[64..72].copy_from_slice(&first.to_le_bytes());
    h
}

fn record(w: usize, hash: u8, left: u64, right: u64, padding: u16, key: &[u8], value: &[u8]) -> Vec<u8> {
    let mut r = vec![0xc8u8, hash];
    r.extend_from_slice(&left.to_le_bytes()[..w]);
    r.extend_from_slice(&right.to_le_bytes()[..w]);
    r.extend_from_slice(&padding.to_le_bytes());
    r.extend_from_slice(&vnum(key.len() as u32));
    r.extend_from_slice(&vnum(value.len() as u32));
    r.extend_from_slice(key);
    r.extend_from_slice(value);
    r.extend(vec![0u8; padding as usize]);
    r
}

fn free_block(total: u32) -> Vec<u8> {
    let mut f = vec![0xb0u8];
    f.extend_from_slice(&total.to_le_bytes());
    f.extend(vec![0u8; total as usize - 5]);
    f
}

fn put(image: &mut Vec<u8>, at: usize, bytes: &[u8]) {
    if image.len() < at + bytes.len() {
        image.resize(at + bytes.len(), 0);
    }
    image[at..at + bytes.len()].copy_from_slice(bytes);
}

fn set_bucket(image: &mut Vec<u8>, w: usize, idx: u64, encoded: u64) {
    let at = 256 + idx as usize * w;
    let bytes = encoded.to_le_bytes();
    put(image, at, &bytes[..w]);
}

fn sec_hash(key: &[u8]) -> u8 {
    let mut h: u32 = 751;
    for &b in key.iter().rev() {
        h = h.wrapping_mul(31) ^ b as u32;
    }
    h as u8
}

fn bucket_idx(key: &[u8], bn: u64) -> u64 {
    let mut i: u64 = 19780211;
    for &b in key {
        i = i.wrapping_mul(37).wrapping_add(b as u64);
    }
    i % bn
}

fn key_with_hash(target: u8) -> Vec<u8> {
    for i in 0..1000000u32 {
        let k = format!("k{}", i).into_bytes();
        if sec_hash(&k) == target {
            return k;
        }
    }
    panic!("no key with the wanted hash");
}

fn load(image: Vec<u8>) -> TCHDB {
    load_with_endian(image, Endian::Little).unwrap()
}

/// One record under one key, small layout: the single-record file.
fn single_record_image(options: u8) -> (Vec<u8>, usize) {
    let w: usize = if options & 1 == 1 { 8 } else { 4 };
    let bn: u64 = 131071;
    let mut image = header(4, 10, options, bn, 1, 8192, 4096);
    let idx = bucket_idx(b"a", bn);
    set_bucket(&mut image, w, idx, 4096 >> 4);
    let rec = record(w, sec_hash(b"a"), 0, 0, 3, b"a", b"alpha");
    let rec_len = rec.len();
    put(&mut image, 4096, &rec);
    let fb = free_block((8192 - 4096 - rec_len) as u32);
    put(&mut image, 4096 + rec_len, &fb);
    // cover the whole bucket region, so every key's bucket can be read
    let full = 256 + bn as usize * w;
    if image.len() < full {
        image.resize(full, 0);
    }
    (image, rec_len)
}

#[test]
fn single_record_lookup_small() {
    let (image, _) = single_record_image(0);
    let db = load(image);
    assert_eq!(db.header.bucket_number, 131071);
    assert_eq!(db.header.alignment_power, 4);
    assert_eq!(db.header.first_record, 4096);
    assert_eq!(db.header.file_size, 8192);
    assert_eq!(db.get("a").unwrap(), Some(b"alpha".to_vec()));
    assert_eq!(db.get("b").unwrap(), None);
}

#[test]
fn single_record_iteration_small() {
    let (image, rec_len) = single_record_image(0);
    let db = load(image);
    let mut it = db.read_record_spaces(true);
    let mut record_count = 0;
    let mut positions: Vec<u64> = Vec::new();
    loop {
        let pos = it.next_pos;
        match it.next(&db).unwrap() {
            None => break,
            Some(RecordSpace::Record(rec)) => {
                record_count += 1;
                assert_eq!(rec.key, b"a".to_vec());
                assert_eq!(pos, 4096);
                // the computed next-record offset equals the end of the
                // bytes the record occupies in the file
                assert_eq!(it.next_pos as usize, 4096 + rec_len);
                positions.push(pos);
            },
            Some(RecordSpace::FreeBlock(_)) => {
                positions.push(pos);
            },
        }
    }
    assert_eq!(record_count, 1);
    for i in 1..positions.len() {
        assert!(positions[i - 1] < positions[i]);
    }
    assert_eq!(it.next_pos, 8192);
}

#[test]
fn single_record_lookup_large() {
    let (image, _) = single_record_image(1);
    let db = load(image);
    assert_eq!(db.get("a").unwrap(), Some(b"alpha".to_vec()));
    assert_eq!(db.get("b").unwrap(), None);
}

#[test]
fn single_record_iteration_large() {
    let (image, rec_len) = single_record_image(1);
    let db = load(image);
    let mut it = db.read_record_spaces(true);
    let mut record_count = 0;
    loop {
        match it.next(&db).unwrap() {
            None => break,
            Some(RecordSpace::Record(rec)) => {
                record_count += 1;
                assert_eq!(rec.key, b"a".to_vec());
                assert_eq!(rec.value.into_value().into_value(), b"alpha".to_vec());
                assert_eq!(it.next_pos as usize, 4096 + rec_len);
            },
            Some(RecordSpace::FreeBlock(_)) => {},
        }
    }
    assert_eq!(record_count, 1);
    assert_eq!(it.next_pos, 8192);
}

/// Two records in one bucket: the root with hash 200, its right child
/// with hash 50.
fn two_record_image() -> (Vec<u8>, Vec<u8>, Vec<u8>) {
    let w: usize = 4;
    let kroot = key_with_hash(200);
    let kchild = key_with_hash(50);
    let base_len = record(w, 200, 0, 4160 >> 4, 0, &kroot, b"rootval").len();
    // pad the root so that the child starts at the next aligned slot
    let pad = 4160 - 4096 - base_len;
    let root_padded = record(w, 200, 0, 4160 >> 4, pad as u16, &kroot, b"rootval");
    let child = record(w, 50, 0, 0, 0, &kchild, b"childval");
    let fsize = (4160 + child.len()) as u64;
    let mut image = header(4, 10, 0, 1, 2, fsize, 4096);
    set_bucket(&mut image, w, 0, 4096 >> 4);
    put(&mut image, 4096, &root_padded);
    put(&mut image, 4160, &child);
    (image, kroot, kchild)
}

#[test]
fn lookup_descends_right_to_child() {
    let (image, _kroot, kchild) = two_record_image();
    let db = load(image);
    let child_key = String::from_utf8(kchild).unwrap();
    assert_eq!(db.get(&child_key).unwrap(), Some(b"childval".to_vec()));
    // the walk passes the root and lands on its right child
    let (_, found, visited) = db.get_detail(&child_key).unwrap();
    assert!(found);
    assert_eq!(visited.len(), 2);
    assert_eq!(visited[0].hash_value, 200);
    assert_eq!(visited[1].hash_value, 50);
}

#[test]
fn lookup_finds_root() {
    let (image, kroot, _kchild) = two_record_image();
    let db = load(image);
    let root_key = String::from_utf8(kroot).unwrap();
    assert_eq!(db.get(&root_key).unwrap(), Some(b"rootval".to_vec()));
}

#[test]
fn get_detail_miss_reports_visited_records() {
    let (image, kroot, kchild) = two_record_image();
    let db = load(image);
    let (kwh, found, visited) = db.get_detail("missing").unwrap();
    assert!(!found);
    // the walk is deterministic: derive the depth from the two stored
    // hashes and keys
    let kh = sec_hash(b"missing");
    assert_eq!(kwh.hash, kh);
    let expected = if kh > 200 {
        1 // descends left of the root, which is empty
    } else if kh < 200 {
        2 // reaches the child, then an empty chain
    } else if b"missing".to_vec() > kroot {
        1
    } else {
        2
    };
    let _ = kchild;
    assert_eq!(visited.len(), expected);
    assert_eq!(visited[0].hash_value, 200);
}

#[test]
fn dump_bucket_order_is_right_self_left() {
    let (image, _kroot, _kchild) = two_record_image();
    let db = load(image);
    let records = db.dump_bucket(0).unwrap();
    assert_eq!(records.len(), 2);
    // right subtree first, then the root itself
    assert_eq!(records[0].hash_value, 50);
    assert_eq!(records[1].hash_value, 200);
}

/// A free block at `first_record` followed by one record.
fn free_block_then_record_image() -> Vec<u8> {
    let w: usize = 4;
    let rec = record(w, sec_hash(b"q"), 0, 0, 0, b"q", b"qv");
    let fsize = (4128 + rec.len()) as u64;
    let mut image = header(4, 10, 0, 1, 1, fsize, 4096);
    set_bucket(&mut image, w, 0, 4128 >> 4);
    put(&mut image, 4096, &free_block(32));
    put(&mut image, 4128, &rec);
    image
}

#[test]
fn iterator_yields_free_block_then_record() {
    let db = load(free_block_then_record_image());
    let mut it = db.read_record_spaces(false);
    match it.next(&db).unwrap() {
        Some(RecordSpace::FreeBlock(fb)) => assert_eq!(fb.block_size, 32),
        other => panic!("expected a free block, got {:?}", other.is_some()),
    }
    match it.next(&db).unwrap() {
        Some(RecordSpace::Record(rec)) => assert_eq!(rec.key, b"q".to_vec()),
        _ => panic!("expected a record"),
    }
    assert_eq!(it.next(&db).unwrap().is_none(), true);
    assert_eq!(it.next_pos, db.header.file_size);
}

/// A record that declares a hundred value bytes where only fifty remain.
fn truncated_value_image() -> (Vec<u8>, Vec<u8>) {
    let w: usize = 4;
    let key = b"t".to_vec();
    let mut rec = vec![0xc8u8, sec_hash(&key)];
    rec.extend_from_slice(&0u32.to_le_bytes());
    rec.extend_from_slice(&0u32.to_le_bytes());
    rec.extend_from_slice(&0u16.to_le_bytes());
    rec.extend_from_slice(&vnum(key.len() as u32));
    rec.extend_from_slice(&vnum(100));
    rec.extend_from_slice(&key);
    rec.extend(vec![0u8; 50]); // only half of the declared value bytes
    let fsize = (4096 + rec.len()) as u64;
    let mut image = header(4, 10, 0, 1, 1, fsize, 4096);
    set_bucket(&mut image, w, 0, 4096 >> 4);
    put(&mut image, 4096, &rec);
    (image, key)
}

#[test]
fn truncated_value_fails_on_eager_iteration() {
    let (image, _) = truncated_value_image();
    let db = load(image);
    let mut it = db.read_record_spaces(true);
    assert!(matches!(it.next(&db), Err(TchdbError::Truncated)));
}

#[test]
fn truncated_value_fails_on_get() {
    let (image, key) = truncated_value_image();
    let db = load(image);
    let key = String::from_utf8(key).unwrap();
    assert_eq!(db.get(&key), Err(TchdbError::Truncated));
}

#[test]
fn truncated_value_still_iterates_lazily() {
    let (image, key) = truncated_value_image();
    let db = load(image);
    let mut it = db.read_record_spaces(false);
    match it.next(&db).unwrap() {
        Some(RecordSpace::Record(rec)) => assert_eq!(rec.key, key),
        _ => panic!("expected a record"),
    }
}

/// An empty key with an empty value and no padding.
#[test]
fn zero_sized_record_fields() {
    let w: usize = 4;
    let rec = record(w, sec_hash(b""), 0, 0, 0, b"", b"");
    assert_eq!(rec.len(), 14);
    let fsize = (4096 + rec.len()) as u64;
    let mut image = header(4, 10, 0, 1, 1, fsize, 4096);
    set_bucket(&mut image, w, 0, 4096 >> 4);
    put(&mut image, 4096, &rec);
    let db = load(image);
    assert_eq!(db.get("").unwrap(), Some(Vec::new()));
    let mut it = db.read_record_spaces(false);
    match it.next(&db).unwrap() {
        Some(RecordSpace::Record(rec)) => {
            assert_eq!(rec.key_size.0, 0);
            assert_eq!(rec.value_size.0, 0);
            assert_eq!(rec.padding_size, 0);
        },
        _ => panic!("expected a record"),
    }
    assert!(it.next(&db).unwrap().is_none());
}

/// A bucket holding a balanced tree of depth three: left children carry
/// greater hashes, right children smaller ones.
fn balanced_tree_image() -> (Vec<u8>, Vec<Vec<u8>>) {
    let w: usize = 4;
    let hashes: [u8; 7] = [128, 192, 64, 224, 160, 96, 32];
    let keys: Vec<Vec<u8>> = hashes.iter().map(|&h| key_with_hash(h)).collect();
    // records sit at 4096 + 64*i; each slot is 64 bytes
    let slot = |i: usize| -> u64 { (4096 + 64 * i) as u64 };
    let enc = |i: usize| -> u64 { slot(i) >> 4 };
    // node i children: (left, right) by index into hashes
    let children: [(usize, usize); 7] = [
        (1, 2),
        (3, 4),
        (5, 6),
        (usize::MAX, usize::MAX),
        (usize::MAX, usize::MAX),
        (usize::MAX, usize::MAX),
        (usize::MAX, usize::MAX),
    ];
    let mut image = header(4, 10, 0, 1, 7, 4096 + 7 * 64, 4096);
    set_bucket(&mut image, w, 0, enc(0));
    for i in 0..7 {
        let (l, r) = children[i];
        let left = if l == usize::MAX { 0 } else { enc(l) };
        let right = if r == usize::MAX { 0 } else { enc(r) };
        let value = format!("v{}", hashes[i]).into_bytes();
        let body = record(w, hashes[i], left, right, 0, &keys[i], &value);
        let pad = 64 - body.len();
        let body = record(w, hashes[i], left, right, pad as u16, &keys[i], &value);
        assert_eq!(body.len(), 64);
        put(&mut image, slot(i) as usize, &body);
    }
    (image, keys)
}

#[test]
fn balanced_tree_every_key_is_found() {
    let (image, keys) = balanced_tree_image();
    let db = load(image);
    let hashes: [u8; 7] = [128, 192, 64, 224, 160, 96, 32];
    for (i, key) in keys.iter().enumerate() {
        let key = String::from_utf8(key.clone()).unwrap();
        let expected = format!("v{}", hashes[i]).into_bytes();
        assert_eq!(db.get(&key).unwrap(), Some(expected));
    }
    assert_eq!(db.get("absent-key").unwrap(), None);
}

#[test]
fn balanced_tree_dump_ascends_by_hash() {
    let (image, _) = balanced_tree_image();
    let db = load(image);
    let records = db.dump_bucket(0).unwrap();
    let hashes: Vec<u8> = records.iter().map(|r| r.hash_value).collect();
    assert_eq!(hashes, vec![32, 64, 96, 128, 160, 192, 224]);
}

#[test]
fn balanced_tree_iterated_records_round_trip_through_get() {
    let (image, _) = balanced_tree_image();
    let db = load(image);
    let mut it = db.read_record_spaces(true);
    let mut seen = 0;
    loop {
        match it.next(&db).unwrap() {
            None => break,
            Some(RecordSpace::Record(rec)) => {
                seen += 1;
                let kwh = db.hash(&rec.key);
                assert_eq!(kwh.hash, rec.hash_value);
                let found = db.get_record(&kwh).unwrap().expect("present key");
                assert_eq!(found.key, rec.key);
                let key = String::from_utf8(rec.key.clone()).unwrap();
                let value = rec.value.into_value().into_value();
                assert_eq!(db.get(&key).unwrap(), Some(value));
            },
            Some(RecordSpace::FreeBlock(_)) => {},
        }
    }
    assert_eq!(seen, 7);
}

/// A chain of left children only.
#[test]
fn skewed_chain_is_walkable() {
    let w: usize = 4;
    // hashes ascending toward the leaves: each left child is greater
    let hashes: [u8; 3] = [10, 20, 30];
    let keys: Vec<Vec<u8>> = hashes.iter().map(|&h| key_with_hash(h)).collect();
    let slot = |i: usize| -> u64 { (4096 + 64 * i) as u64 };
    let mut image = header(4, 10, 0, 1, 3, 4096 + 3 * 64, 4096);
    set_bucket(&mut image, w, 0, slot(0) >> 4);
    for i in 0..3 {
        let left = if i + 1 < 3 { slot(i + 1) >> 4 } else { 0 };
        let value = format!("v{}", hashes[i]).into_bytes();
        let body = record(w, hashes[i], left, 0, 0, &keys[i], &value);
        let pad = 64 - body.len();
        let body = record(w, hashes[i], left, 0, pad as u16, &keys[i], &value);
        put(&mut image, slot(i) as usize, &body);
    }
    let db = load(image);
    for (i, key) in keys.iter().enumerate() {
        let key = String::from_utf8(key.clone()).unwrap();
        let expected = format!("v{}", hashes[i]).into_bytes();
        assert_eq!(db.get(&key).unwrap(), Some(expected));
    }
    let records = db.dump_bucket(0).unwrap();
    let hs: Vec<u8> = records.iter().map(|r| r.hash_value).collect();
    // traversal emits right subtree, node, left subtree
    assert_eq!(hs, vec![10, 20, 30]);
}

#[test]
fn load_rejects_short_image() {
    let image = vec![0u8; 100];
    assert_eq!(
        load_with_endian(image, Endian::Little).err(),
        Some(TchdbError::Truncated)
    );
}

#[test]
fn load_rejects_bad_magic() {
    let mut image = header(4, 10, 0, 1, 0, 4096, 4096);
    image[0] = b'X';
    assert_eq!(
        load_with_endian(image, Endian::Little).err(),
        Some(TchdbError::InvalidHeader)
    );
}

#[test]
fn load_rejects_wrong_database_type() {
    let mut image = header(4, 10, 0, 1, 0, 4096, 4096);
    image[32] = 1;
    assert_eq!(
        load_with_endian(image, Endian::Little).err(),
        Some(TchdbError::InvalidHeader)
    );
}

#[test]
fn load_rejects_zero_buckets() {
    let image = header(4, 10, 0, 0, 0, 4096, 4096);
    assert_eq!(
        load_with_endian(image, Endian::Little).err(),
        Some(TchdbError::InvalidHeader)
    );
}

#[test]
fn unknown_tag_fails_iteration() {
    let mut image = header(4, 10, 0, 1, 0, 4097, 4096);
    put(&mut image, 4096, &[0x55]);
    let db = load(image);
    let mut it = db.read_record_spaces(false);
    assert!(matches!(it.next(&db), Err(TchdbError::UnknownTag)));
}

#[test]
fn oversized_size_field_is_rejected() {
    let w: usize = 4;
    let mut rec = vec![0xc8u8, 0x00];
    rec.extend_from_slice(&0u32.to_le_bytes());
    rec.extend_from_slice(&0u32.to_le_bytes());
    rec.extend_from_slice(&0u16.to_le_bytes());
    // key size 2^32: above the 32-bit domain
    rec.extend_from_slice(&[0xff, 0xff, 0xff, 0xff, 0x10]);
    rec.extend_from_slice(&vnum(0));
    let fsize = (4096 + rec.len()) as u64;
    let mut image = header(4, 10, 0, 1, 1, fsize, 4096);
    set_bucket(&mut image, w, 0, 4096 >> 4);
    put(&mut image, 4096, &rec);
    let db = load(image);
    let mut it = db.read_record_spaces(false);
    assert!(matches!(it.next(&db), Err(TchdbError::VnumOverflow)));
}

#[test]
fn free_block_on_lookup_path_is_a_miss() {
    let w: usize = 4;
    let fsize = 4096 + 32;
    let mut image = header(4, 10, 0, 1, 0, fsize, 4096);
    set_bucket(&mut image, w, 0, 4096 >> 4);
    put(&mut image, 4096, &free_block(32));
    let db = load(image);
    assert_eq!(db.get("anything").unwrap(), None);
    let (_, found, visited) = db.get_detail("anything").unwrap();
    assert!(!found);
    assert_eq!(visited.len(), 0);
}

#[test]
fn free_block_in_tree_fails_dump() {
    let w: usize = 4;
    let fsize = 4096 + 32;
    let mut image = header(4, 10, 0, 1, 0, fsize, 4096);
    set_bucket(&mut image, w, 0, 4096 >> 4);
    put(&mut image, 4096, &free_block(32));
    let db = load(image);
    assert!(matches!(db.dump_bucket(0), Err(TchdbError::UnexpectedFreeBlockInTree)));
}

#[test]
fn cyclic_chain_is_detected() {
    let w: usize = 4;
    let key = key_with_hash(100);
    // the record's left chain points back at the record itself
    let rec = record(w, 100, 4096 >> 4, 0, 0, &key, b"v");
    // a small declared file size keeps the walk budget, and so the
    // recursion depth of the traversal, small
    let mut image = header(4, 10, 0, 1, 1, 64, 4096);
    set_bucket(&mut image, w, 0, 4096 >> 4);
    put(&mut image, 4096, &rec);
    let db = load(image);
    // a key whose hash is greater descends left forever
    let probe = key_with_hash(150);
    let probe = String::from_utf8(probe).unwrap();
    assert!(matches!(db.get(&probe), Err(TchdbError::CyclicBucketTree)));
    assert!(matches!(db.dump_bucket(0), Err(TchdbError::CyclicBucketTree)));
}

#[test]
fn read_buckets_returns_every_root() {
    let w: usize = 4;
    let mut image = header(4, 10, 0, 3, 0, 4096, 4096);
    set_bucket(&mut image, w, 0, 7);
    set_bucket(&mut image, w, 1, 0);
    set_bucket(&mut image, w, 2, 9);
    image.resize(4096, 0);
    let db = load(image);
    let buckets = db.read_buckets().unwrap();
    assert_eq!(buckets.0.len(), 3);
    assert_eq!(buckets.0[0].value, 7);
    assert_eq!(buckets.0[0].offset(4), 7 << 4);
    assert!(!buckets.0[0].is_empty());
    assert!(buckets.0[1].is_empty());
    assert_eq!(buckets.0[2].value, 9);
}

#[test]
fn free_block_pool_returns_entries_verbatim() {
    let w: usize = 4;
    let mut image = header(4, 10, 0, 1, 0, 4096, 4096);
    // pool starts right after the single bucket, at 260
    let mut pool = Vec::new();
    pool.extend_from_slice(&vnum(8));
    pool.extend_from_slice(&vnum(32));
    pool.extend_from_slice(&vnum(16));
    pool.extend_from_slice(&vnum(64));
    pool.extend_from_slice(&vnum(0));
    pool.extend_from_slice(&vnum(0));
    put(&mut image, 256 + w, &pool);
    image.resize(4096, 0);
    let db = load(image);
    assert_eq!(db.free_block_pool_offset, 260);
    let entries = db.read_free_block_pool().unwrap();
    assert_eq!(entries.len(), 2);
    assert_eq!(entries[0].offset.0, 8);
    assert_eq!(entries[0].size.0, 32);
    assert_eq!(entries[1].offset.0, 16);
    assert_eq!(entries[1].size.0, 64);
}

#[test]
fn big_endian_header_reads_with_override() {
    let mut image = vec![0u8; 4096];
    image[..13].copy_from_slice(b"ToKyO CaBiNeT");
    image[34] = 4;
    image[35] = 10;
    image[36] = 0;
    image[40..48].copy_from_slice(&2u64.to_be_bytes());
    image[48..56].copy_from_slice(&0u64.to_be_bytes());
    image[56..64].copy_from_slice(&4096u64.to_be_bytes());
    image[64..72].copy_from_slice(&4096u64.to_be_bytes());
    let db = load_with_endian(image, Endian::Big).unwrap();
    assert_eq!(db.header.bucket_number, 2);
    assert_eq!(db.header.file_size, 4096);
    assert_eq!(db.header.first_record, 4096);
}

#[test]
fn hash_matches_the_format_formulas() {
    let (image, _) = single_record_image(0);
    let db = load(image);
    let kwh = db.hash(&b"a".to_vec());
    assert_eq!(kwh.key, b"a".to_vec());
    assert_eq!(kwh.hash, sec_hash(b"a"));
    assert_eq!(kwh.idx, bucket_idx(b"a", db.header.bucket_number));
    assert!(kwh.idx < db.header.bucket_number);
}

#[test]
fn multi_read_round_trips_its_bytes() {
    let bytes = vec![1u8, 2, 3, 4];
    let mr = tchread::multi_read::MultiRead::new(bytes.clone());
    assert_eq!(mr.len(), 4);
    assert_eq!(mr.into_inner(), bytes);
}

#[test]
fn next_record_uses_the_canonical_size_lengths() {
    let rec = Record {
        offset: 1000,
        width: Width::Small,
        hash_value: 1,
        left_chain: RecordOffset { value: 0 },
        right_chain: RecordOffset { value: 0 },
        padding_size: 7,
        key_size: VNum(u32::MAX),
        value_size: VNum(130),
        key: Vec::new(),
        value: Lazy::Unread { offset: 0, size: 130 },
    };
    // 1 hash byte + two 4-byte offsets + 2 padding-size bytes, then the
    // five- and two-byte encodings of the sizes, then the data itself
    let expected = 1000u64 + 1 + 8 + 2 + 5 + 2 + u32::MAX as u64 + 130 + 7;
    assert_eq!(rec.next_record(), expected);
}

#[test]
fn record_offsets_shift_by_the_alignment() {
    let off = RecordOffset { value: 5 };
    assert_eq!(off.offset(4), 80);
    assert_eq!(off.offset(0), 5);
    assert!(!off.is_empty());
    let empty = RecordOffset { value: 0 };
    assert_eq!(empty.offset(10), 0);
    assert!(empty.is_empty());
}
