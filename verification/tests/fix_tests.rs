use bitrust::fix::{find_flip, fix, flip_byte, FixError, FixOutcome};
use bitrust::hash::hash_file;
use bitrust::record::File;
use bitrust::scan::{lookup, scan_entry, ScanOutcome};

fn fresh_db(tag: &str) -> sled::Db {
    let nanos = std::time::SystemTime::now()
        .duration_since(std::time::UNIX_EPOCH)
        .unwrap()
        .as_nanos();
    sled::open(&format!("/tmp/bitrust_testdb_{}_{}", tag, nanos)).unwrap()
}

#[test]
fn fix_without_baseline_fails() {
    let db = fresh_db("nobaseline");
    assert_eq!(fix(&db, b"a.txt", b"anything"), Err(FixError::NoBaseline));
}

#[test]
fn fix_reports_not_corrupted_on_matching_digest() {
    let mut db = fresh_db("fine");
    let key = b"a.txt";
    let content = b"all is well";
    let rec = File {
        modified: 50,
        hash: hash_file(content),
    };
    assert_eq!(scan_entry(&mut db, key, &rec), Ok(ScanOutcome::NewlyTracked));
    assert_eq!(fix(&db, key, content), Ok(FixOutcome::NotCorrupted));
}

#[test]
fn fix_recovers_a_single_flipped_bit() {
    // Baseline for a.txt: digest of the good content at mtime 100. Byte 5,
    // bit 3 is then flipped in place with the mtime left alone: the scan
    // flags corruption and keeps the baseline, and recovery locates (5, 3),
    // after which the restored content digests to the baseline again and a
    // second recovery attempt finds nothing wrong.
    let mut db = fresh_db("recover");
    let key = b"a.txt";
    let content = b"hello world!".to_vec();
    let h0 = hash_file(&content);
    let rec = File {
        modified: 100,
        hash: h0,
    };
    assert_eq!(scan_entry(&mut db, key, &rec), Ok(ScanOutcome::NewlyTracked));

    let mut corrupted = content.clone();
    corrupted[5] = flip_byte(corrupted[5], 3);
    let observed = File {
        modified: 100,
        hash: hash_file(&corrupted),
    };
    assert_eq!(
        scan_entry(&mut db, key, &observed),
        Ok(ScanOutcome::CorruptionDetected)
    );
    assert_eq!(lookup(&db, key), Ok(Some(rec)));

    let outcome = fix(&db, key, &corrupted).unwrap();
    assert_eq!(outcome, FixOutcome::Repaired(5, 3));

    let mut repaired = corrupted.clone();
    repaired[5] = flip_byte(repaired[5], 3);
    assert_eq!(repaired, content);
    assert_eq!(hash_file(&repaired), h0);
    assert_eq!(fix(&db, key, &repaired), Ok(FixOutcome::NotCorrupted));
}

#[test]
fn fix_is_exhausted_when_two_bits_flipped() {
    let mut db = fresh_db("twobits");
    let key = b"a.txt";
    let content = b"hello world!".to_vec();
    let rec = File {
        modified: 100,
        hash: hash_file(&content),
    };
    assert_eq!(scan_entry(&mut db, key, &rec), Ok(ScanOutcome::NewlyTracked));

    let mut corrupted = content.clone();
    corrupted[2] = flip_byte(corrupted[2], 1);
    corrupted[9] = flip_byte(corrupted[9], 6);
    assert_eq!(fix(&db, key, &corrupted), Ok(FixOutcome::Exhausted));
}

#[test]
fn fix_is_exhausted_when_length_changed() {
    let mut db = fresh_db("shorter");
    let key = b"a.txt";
    let content = b"hello world!".to_vec();
    let rec = File {
        modified: 100,
        hash: hash_file(&content),
    };
    assert_eq!(scan_entry(&mut db, key, &rec), Ok(ScanOutcome::NewlyTracked));

    let truncated = &content[..content.len() - 1];
    assert_eq!(fix(&db, key, truncated), Ok(FixOutcome::Exhausted));
}

#[test]
fn fix_on_empty_file_terminates_immediately() {
    let mut db = fresh_db("empty");
    let empty_rec = File {
        modified: 10,
        hash: hash_file(b""),
    };
    assert_eq!(
        scan_entry(&mut db, b"empty.txt", &empty_rec),
        Ok(ScanOutcome::NewlyTracked)
    );
    assert_eq!(fix(&db, b"empty.txt", b""), Ok(FixOutcome::NotCorrupted));

    let other_rec = File {
        modified: 10,
        hash: hash_file(b"x"),
    };
    assert_eq!(
        scan_entry(&mut db, b"gone.txt", &other_rec),
        Ok(ScanOutcome::NewlyTracked)
    );
    assert_eq!(fix(&db, b"gone.txt", b""), Ok(FixOutcome::Exhausted));
}

#[test]
fn find_flip_probes_in_ascending_order() {
    // Flipping bit 0 of byte 0 must be found even when a later candidate
    // would also restore the digest space trivially (a one-byte file).
    let content = b"\x01".to_vec();
    let expected = hash_file(b"\x00");
    assert_eq!(find_flip(&content, expected), Some((0, 0)));
}

#[test]
fn find_flip_returns_none_without_a_match() {
    let content = b"ab".to_vec();
    let expected = hash_file(b"zz");
    assert_eq!(find_flip(&content, expected), None);
}

#[test]
fn fix_with_unreadable_stored_value_fails() {
    let db = fresh_db("badstored");
    db.insert(b"a.txt", &b"not a record"[..]).unwrap();
    assert_eq!(fix(&db, b"a.txt", b"content"), Err(FixError::Serialization));
}
