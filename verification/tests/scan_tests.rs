use bitrust::hash::hash_file;
use bitrust::record::File;
use bitrust::scan::{
    classify, lookup, scan, scan_entry, EntryError, ScanError, ScanInput, ScanOutcome,
};

fn fresh_db(tag: &str) -> sled::Db {
    let nanos = std::time::SystemTime::now()
        .duration_since(std::time::UNIX_EPOCH)
        .unwrap()
        .as_nanos();
    sled::open(&format!("/tmp/bitrust_testdb_{}_{}", tag, nanos)).unwrap()
}

#[test]
fn classify_follows_the_table() {
    let old = File {
        modified: 100,
        hash: 5,
    };
    assert_eq!(
        classify(None, File { modified: 7, hash: 9 }),
        ScanOutcome::NewlyTracked
    );
    assert_eq!(
        classify(
            Some(old),
            File {
                modified: 100,
                hash: 5
            }
        ),
        ScanOutcome::Unchanged
    );
    assert_eq!(
        classify(
            Some(old),
            File {
                modified: 101,
                hash: 6
            }
        ),
        ScanOutcome::UpdatedNewer
    );
    assert_eq!(
        classify(
            Some(old),
            File {
                modified: 100,
                hash: 6
            }
        ),
        ScanOutcome::CorruptionDetected
    );
    assert_eq!(
        classify(
            Some(old),
            File {
                modified: 99,
                hash: 6
            }
        ),
        ScanOutcome::CorruptionDetected
    );
}

#[test]
fn scan_tracks_then_reports_unchanged() {
    let mut db = fresh_db("idem");
    let key = b"a.txt";
    let rec = File {
        modified: 100,
        hash: hash_file(b"hello world"),
    };
    assert_eq!(scan_entry(&mut db, key, &rec), Ok(ScanOutcome::NewlyTracked));
    assert_eq!(scan_entry(&mut db, key, &rec), Ok(ScanOutcome::Unchanged));
    assert_eq!(lookup(&db, key), Ok(Some(rec)));
}

#[test]
fn corruption_detected_and_baseline_preserved() {
    let mut db = fresh_db("corrupt");
    let key = b"a.txt";
    let content = b"hello world".to_vec();
    let rec = File {
        modified: 100,
        hash: hash_file(&content),
    };
    assert_eq!(scan_entry(&mut db, key, &rec), Ok(ScanOutcome::NewlyTracked));

    let mut corrupted = content.clone();
    corrupted[5] = bitrust::fix::flip_byte(corrupted[5], 3);
    let observed = File {
        modified: 100,
        hash: hash_file(&corrupted),
    };
    assert_eq!(
        scan_entry(&mut db, key, &observed),
        Ok(ScanOutcome::CorruptionDetected)
    );
    assert_eq!(lookup(&db, key), Ok(Some(rec)));
}

#[test]
fn legitimate_edit_updates_baseline() {
    let mut db = fresh_db("edit");
    let key = b"a.txt";
    let rec = File {
        modified: 100,
        hash: hash_file(b"version one"),
    };
    assert_eq!(scan_entry(&mut db, key, &rec), Ok(ScanOutcome::NewlyTracked));

    let newer = File {
        modified: 101,
        hash: hash_file(b"version two"),
    };
    assert_eq!(
        scan_entry(&mut db, key, &newer),
        Ok(ScanOutcome::UpdatedNewer)
    );
    assert_eq!(lookup(&db, key), Ok(Some(newer)));
}

#[test]
fn scan_batch_reports_and_skips_unreadable() {
    let mut db = fresh_db("batch");
    let entries = vec![
        ScanInput {
            key: b"one".to_vec(),
            observed: Some(File {
                modified: 1,
                hash: hash_file(b"one"),
            }),
        },
        ScanInput {
            key: b"two".to_vec(),
            observed: None,
        },
        ScanInput {
            key: b"three".to_vec(),
            observed: Some(File {
                modified: 3,
                hash: hash_file(b"three"),
            }),
        },
    ];
    let reports = scan(&mut db, &entries, false).unwrap();
    assert_eq!(
        reports,
        vec![
            Ok(ScanOutcome::NewlyTracked),
            Err(EntryError::Read),
            Ok(ScanOutcome::NewlyTracked),
        ]
    );
    assert!(lookup(&db, b"one").unwrap().is_some());
    assert!(lookup(&db, b"two").unwrap().is_none());
    assert!(lookup(&db, b"three").unwrap().is_some());
}

#[test]
fn scan_batch_fatal_aborts_on_first_error() {
    let mut db = fresh_db("fatal");
    let entries = vec![
        ScanInput {
            key: b"one".to_vec(),
            observed: Some(File {
                modified: 1,
                hash: hash_file(b"one"),
            }),
        },
        ScanInput {
            key: b"two".to_vec(),
            observed: None,
        },
    ];
    assert_eq!(
        scan(&mut db, &entries, true),
        Err(ScanError::Entry(EntryError::Read))
    );
}

#[test]
fn unreadable_stored_value_is_a_serialization_error() {
    let mut db = fresh_db("badvalue");
    let key = b"a.txt";
    db.insert(key, &b"short"[..]).unwrap();
    assert_eq!(lookup(&db, key), Err(EntryError::Serialization));
    let observed = File {
        modified: 1,
        hash: 2,
    };
    assert_eq!(
        scan_entry(&mut db, key, &observed),
        Err(EntryError::Serialization)
    );
}
