use grix::index::format::{
    write_index, FileRecord, IndexError, IndexIds, IndexReader, Postings, VecPostings,
    FLAG_SCAN_ALWAYS,
};
use grix::index::merge::Merged;
use grix::index::postings::decode_postings;
use grix::index::reuse::OldRun;
use grix::trigram::pack_str;
use grix::varint::write_u64;
use std::collections::BTreeMap;

fn sample_files() -> Vec<FileRecord> {
    vec![
        FileRecord {
            rel_path: "src/main.rs".into(),
            size: 100,
            mtime: 1,
            flags: 0,
        },
        FileRecord {
            rel_path: "README.md".into(),
            size: 200,
            mtime: 2,
            flags: 0,
        },
        FileRecord {
            rel_path: "big.bin".into(),
            size: 1 << 30,
            mtime: 3,
            flags: FLAG_SCAN_ALWAYS,
        },
    ]
}

fn base_ids() -> IndexIds {
    IndexIds { build_id: 7, parent_id: 0 }
}

fn sample_index() -> Vec<u8> {
    let mut postings = BTreeMap::new();
    postings.insert(pack_str(b"abc"), vec![0u32, 2]);
    postings.insert(pack_str(b"bcd"), vec![1u32]);
    postings.insert(pack_str(b"zzz"), vec![0u32, 1, 2]);
    let mut source = VecPostings::new(postings.into_iter().collect());
    write_index("C:/repo", &sample_files(), &mut source, &vec![], base_ids()).unwrap()
}

#[test]
fn write_read_roundtrip() {
    let bytes = sample_index();
    let r = IndexReader::parse(&bytes).unwrap();
    assert_eq!(r.root(), "C:/repo");
    assert_eq!(r.file_count(), 3);
    assert_eq!(r.trigram_count(), 3);
    assert_eq!(r.file(0).unwrap().rel_path, "src/main.rs");
    assert_eq!(r.file(2).unwrap().flags, FLAG_SCAN_ALWAYS);
    assert_eq!(r.scan_always_ids(), vec![2]);
    assert_eq!(
        r.postings(pack_str(b"abc")).unwrap(),
        Postings::Ids(vec![0, 2])
    );
    assert_eq!(
        r.postings(pack_str(b"zzz")).unwrap(),
        Postings::Ids(vec![0, 1, 2])
    );
    assert_eq!(
        r.postings(pack_str(b"qqq")).unwrap(),
        Postings::Ids(vec![])
    );
}

/// An index that opens but has a list that cannot be read.
fn corrupt_index() -> Vec<u8> {
    let files: Vec<FileRecord> = (0..16)
        .map(|i| FileRecord {
            rel_path: format!("f{i}"),
            size: i,
            mtime: 0,
            flags: 0,
        })
        .collect();
    let mut source = VecPostings::new(vec![
        (pack_str(b"abc"), vec![3]),
        (pack_str(b"bcd"), vec![5]),
    ]);
    let bytes = write_index("r", &files, &mut source, &vec![], base_ids()).unwrap();
    for at in 0..bytes.len() {
        let mut broken = bytes.clone();
        broken[at] = 0xff;
        let unreadable = match IndexReader::parse(&broken) {
            Ok(r) => r.postings(pack_str(b"abc")).is_ok() && r.postings(pack_str(b"bcd")).is_err(),
            Err(_) => false,
        };
        if unreadable {
            return broken;
        }
    }
    panic!("no byte of the second list was found");
}

#[test]
fn failed_write_keeps_index_and_leaves_no_temps() {
    // A source that fails midway yields no bytes at all, so there is nothing
    // that could take the place of the live index or be left behind.
    let bytes = sample_index();
    let corrupt = corrupt_index();
    let old = IndexReader::parse(&corrupt).unwrap();
    let same: Vec<u32> = (0..16).collect();
    let mut boom = Merged::new(vec![], vec![OldRun::new(&old, &same).unwrap()]);
    let attempt = write_index("r", &sample_files(), &mut boom, &vec![], base_ids());
    assert!(matches!(attempt, Err(IndexError::Corrupt(_))));
    // What takes the place of the index is what was written, if anything was.
    let live = attempt.unwrap_or(bytes);
    let r = IndexReader::parse(&live).unwrap();
    assert_eq!(r.file_count(), sample_files().len());
    assert!(r.postings(pack_str(b"abc")).is_ok());
}

#[test]
fn rejects_garbage() {
    assert!(IndexReader::parse(b"not an index at all").is_err());
}

#[test]
fn errors_say_what_is_wrong() {
    let io = IndexError::Io("gone".to_string());
    assert_eq!(io.message(), "index io error: gone");
    let mut bytes = sample_index();
    // An older file has another magic, and its version behind it.
    bytes[7] = b'2';
    bytes[8] = 2;
    match IndexReader::parse(&bytes) {
        Err(IndexError::WrongVersion(v)) => {
            assert_eq!(v, 2);
            assert_eq!(
                IndexError::WrongVersion(v).message(),
                "unsupported index version 2"
            );
        }
        _ => panic!("an older version was accepted"),
    }
    match IndexReader::parse(b"") {
        Err(e) => assert!(e.message().starts_with("corrupt index ("), "{}", e.message()),
        Ok(_) => panic!("an empty file was accepted"),
    }
}

#[test]
fn every_truncation_is_an_error() {
    let bytes = sample_index();
    for n in 0..bytes.len() {
        assert!(IndexReader::parse(&bytes[..n]).is_err(), "accepted {n} bytes");
    }
}

#[test]
fn ids_and_tombstones_read_back() {
    let ids = IndexIds { build_id: u64::MAX, parent_id: 5 };
    let mut none = VecPostings::new(vec![]);
    let bytes = write_index("/r", &sample_files(), &mut none, &vec![1, 4, 9], ids).unwrap();
    let r = IndexReader::parse(&bytes).unwrap();
    assert_eq!(r.index_ids(), ids);
    assert_eq!(r.tombstones(), vec![1, 4, 9]);
    assert_eq!(r.trigram_count(), 0);
    assert!(r.file(3).is_err());
}

#[test]
fn long_lists_read_back_or_are_counted() {
    let files: Vec<FileRecord> = (0..1000)
        .map(|i| FileRecord {
            rel_path: format!("f{i}"),
            size: i,
            mtime: 0,
            flags: 0,
        })
        .collect();
    let every: Vec<u32> = (0..1000).collect();
    let most: Vec<u32> = (0..999).collect();
    let third: Vec<u32> = (0..1000).filter(|i| i % 3 == 0).collect();
    let mut source = VecPostings::new(vec![
        (pack_str(b"all"), every.clone()),
        (pack_str(b"few"), third.clone()),
        (pack_str(b"mos"), most),
    ]);
    let bytes = write_index("/r", &files, &mut source, &vec![], base_ids()).unwrap();
    let r = IndexReader::parse(&bytes).unwrap();
    assert_eq!(r.postings(pack_str(b"all")).unwrap(), Postings::Ids(every));
    assert_eq!(r.postings(pack_str(b"mos")).unwrap(), Postings::Dense(999));
    assert_eq!(r.postings(pack_str(b"few")).unwrap(), Postings::Ids(third));
    assert_eq!(r.iter_postings().unwrap().len(), 3);
}

#[test]
fn posting_bytes_decode_or_are_refused() {
    let ids: Vec<u32> = vec![3, 300, 70_000];
    let mut bytes = Vec::new();
    let mut prev = 0;
    for &id in &ids {
        write_u64(&mut bytes, (id - prev) as u64);
        prev = id;
    }
    assert_eq!(bytes.len(), 6);
    assert_eq!(decode_postings(&bytes, 70_001).unwrap(), ids);
    assert!(matches!(
        decode_postings(&bytes, 70_000),
        Err(IndexError::Corrupt("posting id out of range"))
    ));
    // Cut between ids, and in the middle of one.
    assert_eq!(decode_postings(&bytes[..3], 70_001).unwrap(), vec![3, 300]);
    assert!(matches!(
        decode_postings(&bytes[..5], 70_001),
        Err(IndexError::Corrupt("truncated postings"))
    ));
    assert_eq!(decode_postings(&[], 0).unwrap(), Vec::<u32>::new());
}
