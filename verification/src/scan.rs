//! The directory scanner's decision core: compare a freshly observed record
//! for a path against the stored baseline, and update or flag.
//!
//! Walking the tree, reading files and hashing them happen at the caller;
//! this module receives one observed `File` per path and carries out the
//! decision table against the store.

use vstd::prelude::*;

use crate::record::{
    decodable, decode_record, encode_record, lemma_record_round_trip, spec_decode, spec_encode,
    File,
};
use crate::store::{db_flush, db_get, db_insert, db_view};

verus! {

/// Per-file result of one scan step.
#[derive(Clone, Copy, Debug, PartialEq, Eq, Structural)]
pub enum ScanOutcome {
    NewlyTracked,
    Unchanged,
    UpdatedNewer,
    CorruptionDetected,
}

/// Why one entry of a scan failed. `Read` marks a file the caller could not
/// read, `Store` a failing store operation, `Serialization` a stored value
/// that is not a readable record.
#[derive(Clone, Copy, Debug, PartialEq, Eq, Structural)]
pub enum EntryError {
    Read,
    Store,
    Serialization,
}

/// Abort of a whole scan: the first entry error under `fatal`, or a failed
/// final flush, which is always fatal.
#[derive(Clone, Copy, Debug, PartialEq, Eq, Structural)]
pub enum ScanError {
    Entry(EntryError),
    Flush,
}

/// The decision table: how an observed record relates to the stored
/// baseline for the same path.
pub open spec fn classify_spec(prior: Option<File>, observed: File) -> ScanOutcome {
    match prior {
        None => ScanOutcome::NewlyTracked,
        Some(old) => if observed.hash == old.hash {
            ScanOutcome::Unchanged
        } else if observed.modified > old.modified {
            ScanOutcome::UpdatedNewer
        } else {
            ScanOutcome::CorruptionDetected
        },
    }
}

/// Outcomes on which the baseline moves to the observed record.
pub open spec fn updates_baseline(o: ScanOutcome) -> bool {
    o == ScanOutcome::NewlyTracked || o == ScanOutcome::UpdatedNewer
}

pub fn classify(prior: Option<File>, observed: File) -> (r: ScanOutcome)
    ensures
        r == classify_spec(prior, observed),
{
    match prior {
        None => ScanOutcome::NewlyTracked,
        Some(old) => if observed.hash == old.hash {
            ScanOutcome::Unchanged
        } else if observed.modified > old.modified {
            ScanOutcome::UpdatedNewer
        } else {
            ScanOutcome::CorruptionDetected
        },
    }
}

/// What one scan step decides and leaves in the store, as a function of the
/// store contents: the outcome of the table, and the contents afterwards.
/// An unreadable stored value fails the step instead.
pub open spec fn scan_entry_spec(
    view: Map<Seq<u8>, Seq<u8>>,
    key: Seq<u8>,
    observed: File,
) -> Result<(ScanOutcome, Map<Seq<u8>, Seq<u8>>), EntryError> {
    if view.contains_key(key) && !decodable(view[key]) {
        Err(EntryError::Serialization)
    } else {
        let prior = if view.contains_key(key) {
            Some(spec_decode(view[key]))
        } else {
            None
        };
        let o = classify_spec(prior, observed);
        if updates_baseline(o) {
            Ok((o, view.insert(key, spec_encode(observed))))
        } else {
            Ok((o, view))
        }
    }
}

/// One scan step: look the path up, classify the observed record against
/// the stored one, and update the baseline exactly on `NewlyTracked` and
/// `UpdatedNewer`. A store failure yields `Err(Store)`; an unreadable
/// stored value yields `Err(Serialization)` and leaves the store as it was.
pub fn scan_entry(db: &mut sled::Db, key: &[u8], observed: &File) -> (r: Result<
    ScanOutcome,
    EntryError,
>)
    ensures
        r matches Ok(o) ==> scan_entry_spec(db_view(*old(db)), key@, *observed) == Ok::<
            _,
            EntryError,
        >((o, db_view(*final(db)))),
        r == Err::<ScanOutcome, EntryError>(EntryError::Serialization) ==> {
            &&& scan_entry_spec(db_view(*old(db)), key@, *observed) == Err::<
                (ScanOutcome, Map<Seq<u8>, Seq<u8>>),
                _,
            >(EntryError::Serialization)
            &&& db_view(*final(db)) == db_view(*old(db))
        },
        r matches Err(e) ==> e == EntryError::Store || e == EntryError::Serialization,
{
    let prior_bytes = match db_get(db, key) {
        Ok(v) => v,
        Err(_) => {
            return Err(EntryError::Store);
        },
    };
    let prior = match prior_bytes {
        Some(bytes) => match decode_record(bytes.as_slice()) {
            Some(f) => Some(f),
            None => {
                return Err(EntryError::Serialization);
            },
        },
        None => None,
    };
    let outcome = classify(prior, *observed);
    match outcome {
        ScanOutcome::NewlyTracked | ScanOutcome::UpdatedNewer => {
            let encoded = encode_record(observed);
            match db_insert(db, key, encoded.as_slice()) {
                Ok(()) => Ok(outcome),
                Err(_) => Err(EntryError::Store),
            }
        },
        _ => Ok(outcome),
    }
}

/// Read the baseline record stored for a path, if any. `Err(Serialization)`
/// marks a stored value that is not a readable record.
pub fn lookup(db: &sled::Db, key: &[u8]) -> (r: Result<Option<File>, EntryError>)
    ensures
        r == Ok::<Option<File>, EntryError>(None) ==> !db_view(*db).contains_key(key@),
        r matches Ok(Some(f)) ==> {
            &&& db_view(*db).contains_key(key@)
            &&& decodable(db_view(*db)[key@])
            &&& f == spec_decode(db_view(*db)[key@])
        },
        r == Err::<Option<File>, EntryError>(EntryError::Serialization) ==> db_view(
            *db,
        ).contains_key(key@) && !decodable(db_view(*db)[key@]),
        r matches Err(e) ==> e == EntryError::Store || e == EntryError::Serialization,
{
    match db_get(db, key) {
        Err(_) => Err(EntryError::Store),
        Ok(None) => Ok(None),
        Ok(Some(bytes)) => match decode_record(bytes.as_slice()) {
            Some(f) => Ok(Some(f)),
            None => Err(EntryError::Serialization),
        },
    }
}

/// One path presented to a scan: its key and the record observed for it, or
/// `None` when the file could not be read.
#[derive(Debug)]
pub struct ScanInput {
    pub key: Vec<u8>,
    pub observed: Option<File>,
}

/// No entry of the scan failed on a store operation. Store failures are the
/// one thing the scan's outcome cannot be predicted through.
pub open spec fn no_store_error(reports: Seq<Result<ScanOutcome, EntryError>>) -> bool {
    forall|i: int|
        0 <= i < reports.len() ==> reports[i] != Err::<ScanOutcome, EntryError>(EntryError::Store)
}

/// What a whole scan reports and leaves in the store, entry by entry in
/// order, as a function of the store contents it started from.
pub open spec fn scan_spec(view: Map<Seq<u8>, Seq<u8>>, entries: Seq<ScanInput>) -> (Seq<
    Result<ScanOutcome, EntryError>,
>, Map<Seq<u8>, Seq<u8>>)
    decreases entries.len(),
{
    if entries.len() == 0 {
        (Seq::empty(), view)
    } else {
        let e = entries[0];
        let step = match e.observed {
            None => Err(EntryError::Read),
            Some(f) => scan_entry_spec(view, e.key@, f),
        };
        let rep = match step {
            Err(err) => Err::<ScanOutcome, EntryError>(err),
            Ok(p) => Ok(p.0),
        };
        let v2 = match step {
            Err(_) => view,
            Ok(p) => p.1,
        };
        let rest = scan_spec(v2, entries.drop_first());
        (seq![rep] + rest.0, rest.1)
    }
}

/// Scan a batch of observed paths in order, then durably flush the store on
/// every exit path. Entry failures are reported in place and skipped unless
/// `fatal` is set, in which case the first one aborts the scan; a failing
/// flush always aborts. Whenever no store operation failed, the reports and
/// the final store contents are exactly those of `scan_spec`.
pub fn scan(db: &mut sled::Db, entries: &Vec<ScanInput>, fatal: bool) -> (r: Result<
    Vec<Result<ScanOutcome, EntryError>>,
    ScanError,
>)
    ensures
        r matches Ok(reports) ==> {
            &&& reports@.len() == entries@.len()
            &&& (fatal ==> forall|i: int| 0 <= i < reports@.len() ==> reports@[i] is Ok)
            &&& (no_store_error(reports@) ==> reports@ == scan_spec(
                db_view(*old(db)),
                entries@,
            ).0 && db_view(*final(db)) == scan_spec(db_view(*old(db)), entries@).1)
        },
        r matches Err(e) ==> (e matches ScanError::Entry(_) ==> fatal),
{
    let ghost v0 = db_view(*db);
    let mut reports: Vec<Result<ScanOutcome, EntryError>> = Vec::new();
    let mut clean: bool = true;
    let mut i: usize = 0;
    proof {
        assert(entries@.skip(0) =~= entries@);
        assert(Seq::<Result<ScanOutcome, EntryError>>::empty() + scan_spec(v0, entries@).0
            =~= scan_spec(v0, entries@).0);
    }
    while i < entries.len()
        invariant
            i <= entries@.len(),
            reports@.len() == i,
            v0 == db_view(*old(db)),
            fatal ==> forall|j: int| 0 <= j < reports@.len() ==> reports@[j] is Ok,
            clean <==> no_store_error(reports@),
            clean ==> reports@ + scan_spec(db_view(*db), entries@.skip(i as int)).0 == scan_spec(
                v0,
                entries@,
            ).0,
            clean ==> scan_spec(db_view(*db), entries@.skip(i as int)).1 == scan_spec(
                v0,
                entries@,
            ).1,
        decreases entries@.len() - i,
    {
        let ghost vcur = db_view(*db);
        let ghost suffix = entries@.skip(i as int);
        let entry = &entries[i];
        let rep: Result<ScanOutcome, EntryError> = match &entry.observed {
            Some(f) => scan_entry(db, entry.key.as_slice(), f),
            None => Err(EntryError::Read),
        };
        proof {
            assert(suffix.len() > 0);
            assert(suffix[0] == entries@[i as int]);
            assert(suffix.drop_first() =~= entries@.skip(i as int + 1));
        }
        if let Err(err) = rep {
            if fatal {
                return match db_flush(db) {
                    Ok(_) => Err(ScanError::Entry(err)),
                    Err(_) => Err(ScanError::Flush),
                };
            }
            if err == EntryError::Store {
                clean = false;
            }
        }
        let ghost old_reports = reports@;
        let ghost was_clean = clean;
        reports.push(rep);
        proof {
            let n = old_reports.len() as int;
            assert(reports@ =~= old_reports.push(rep));
            if !no_store_error(old_reports) {
                let j = choose|j: int|
                    0 <= j < old_reports.len() && old_reports[j] == Err::<
                        ScanOutcome,
                        EntryError,
                    >(EntryError::Store);
                assert(reports@[j] == Err::<ScanOutcome, EntryError>(EntryError::Store));
                assert(!no_store_error(reports@));
            }
            if rep == Err::<ScanOutcome, EntryError>(EntryError::Store) {
                assert(reports@[n] == rep);
                assert(!no_store_error(reports@));
            }
            if no_store_error(old_reports) && rep != Err::<ScanOutcome, EntryError>(
                EntryError::Store,
            ) {
                assert forall|j: int| 0 <= j < reports@.len() implies reports@[j] != Err::<
                    ScanOutcome,
                    EntryError,
                >(EntryError::Store) by {
                    if j < n {
                        assert(reports@[j] == old_reports[j]);
                    } else {
                        assert(reports@[j] == rep);
                    }
                }
            }
            if was_clean {
                let rest = scan_spec(db_view(*db), entries@.skip(i as int + 1));
                assert(old_reports.push(rep) + rest.0 =~= old_reports + (seq![rep] + rest.0));
            }
        }
        i = i + 1;
    }
    proof {
        assert(entries@.skip(i as int) =~= Seq::<ScanInput>::empty());
        if clean {
            assert(reports@ + scan_spec(db_view(*db), entries@.skip(i as int)).0 =~= reports@);
        }
    }
    match db_flush(db) {
        Ok(_) => Ok(reports),
        Err(_) => Err(ScanError::Flush),
    }
}

/// The keys of a batch are pairwise distinct, as the paths of a walked tree
/// are.
pub open spec fn distinct_keys(entries: Seq<ScanInput>) -> bool {
    forall|i: int, j: int| 0 <= i < j < entries.len() ==> entries[i].key@ != entries[j].key@
}

/// `k` is not the key of any entry of the batch.
pub open spec fn key_absent(k: Seq<u8>, entries: Seq<ScanInput>) -> bool {
    forall|i: int| 0 <= i < entries.len() ==> entries[i].key@ != k
}

/// A scan reports once per entry.
pub proof fn lemma_scan_spec_len(view: Map<Seq<u8>, Seq<u8>>, entries: Seq<ScanInput>)
    ensures
        scan_spec(view, entries).0.len() == entries.len(),
    decreases entries.len(),
{
    if entries.len() > 0 {
        let e = entries[0];
        let step = match e.observed {
            None => Err(EntryError::Read),
            Some(f) => scan_entry_spec(view, e.key@, f),
        };
        let v2 = match step {
            Err(_) => view,
            Ok(p) => p.1,
        };
        lemma_scan_spec_len(v2, entries.drop_first());
    }
}

/// A scan touches no key outside its batch.
pub proof fn lemma_scan_spec_preserves_absent(
    view: Map<Seq<u8>, Seq<u8>>,
    entries: Seq<ScanInput>,
    k: Seq<u8>,
)
    requires
        key_absent(k, entries),
    ensures
        scan_spec(view, entries).1.contains_key(k) == view.contains_key(k),
        view.contains_key(k) ==> scan_spec(view, entries).1[k] == view[k],
    decreases entries.len(),
{
    if entries.len() > 0 {
        let e = entries[0];
        let step = match e.observed {
            None => Err(EntryError::Read),
            Some(f) => scan_entry_spec(view, e.key@, f),
        };
        let v2 = match step {
            Err(_) => view,
            Ok(p) => p.1,
        };
        assert(e.key@ != k);
        assert(v2.contains_key(k) == view.contains_key(k));
        assert(view.contains_key(k) ==> v2[k] == view[k]);
        assert(key_absent(k, entries.drop_first()));
        lemma_scan_spec_preserves_absent(v2, entries.drop_first(), k);
    }
}

/// Idempotence over a whole batch: scanning an unchanged tree a second
/// time reports `Unchanged` for every file whose first scan did not flag
/// corruption (a corrupted file is flagged again), and moves no baseline.
pub proof fn lemma_scan_batch_idempotent(view: Map<Seq<u8>, Seq<u8>>, entries: Seq<ScanInput>)
    requires
        distinct_keys(entries),
        forall|i: int| 0 <= i < entries.len() ==> entries[i].observed is Some,
        forall|i: int| 0 <= i < entries.len() ==> scan_spec(view, entries).0[i] is Ok,
    ensures
        ({
            let first = scan_spec(view, entries);
            let second = scan_spec(first.1, entries);
            &&& second.1 == first.1
            &&& forall|i: int|
                0 <= i < entries.len() ==> (first.0[i] != Ok::<ScanOutcome, EntryError>(
                    ScanOutcome::CorruptionDetected,
                ) ==> second.0[i] == Ok::<ScanOutcome, EntryError>(ScanOutcome::Unchanged))
                    && (first.0[i] == Ok::<ScanOutcome, EntryError>(
                    ScanOutcome::CorruptionDetected,
                ) ==> second.0[i] == Ok::<ScanOutcome, EntryError>(
                    ScanOutcome::CorruptionDetected,
                ))
        }),
    decreases entries.len(),
{
    lemma_scan_spec_len(view, entries);
    if entries.len() > 0 {
        let e = entries[0];
        let rest = entries.drop_first();
        let f = e.observed->Some_0;
        let first = scan_spec(view, entries);
        let step1 = scan_entry_spec(view, e.key@, f);
        assert(first.0[0] is Ok);
        assert(step1 is Ok);
        let o1 = step1->Ok_0.0;
        let v1a = step1->Ok_0.1;
        let restpass = scan_spec(v1a, rest);
        assert(first.0 == seq![Ok::<ScanOutcome, EntryError>(o1)] + restpass.0);
        assert(first.1 == restpass.1);

        // The rest of the batch never touches this entry's key, so the
        // final contents still hold what the first step left there.
        assert(key_absent(e.key@, rest));
        lemma_scan_spec_preserves_absent(v1a, rest, e.key@);

        // The second pass's first step finds the record the first pass
        // left (or kept) and reports it unchanged, or corrupt again.
        lemma_record_round_trip(f);
        let step2 = scan_entry_spec(first.1, e.key@, f);
        if updates_baseline(o1) {
            assert(v1a == view.insert(e.key@, spec_encode(f)));
            assert(v1a[e.key@] == spec_encode(f));
            assert(first.1[e.key@] == spec_encode(f));
            assert(step2 == Ok::<_, EntryError>((ScanOutcome::Unchanged, first.1)));
        } else {
            assert(v1a == view);
            if o1 == ScanOutcome::Unchanged {
                assert(step2 == Ok::<_, EntryError>((ScanOutcome::Unchanged, first.1)));
            } else {
                assert(o1 == ScanOutcome::CorruptionDetected);
                assert(step2 == Ok::<_, EntryError>((ScanOutcome::CorruptionDetected, first.1)));
            }
        }
        let o2 = step2->Ok_0.0;

        // Induction over the rest, whose own first pass started from v1a.
        lemma_scan_spec_len(v1a, rest);
        assert forall|i: int| 0 <= i < rest.len() implies #[trigger] restpass.0[i] is Ok by {
            assert(first.0[i + 1] == restpass.0[i]);
            assert(first.0[i + 1] is Ok);
        }
        lemma_scan_batch_idempotent(v1a, rest);

        let second = scan_spec(first.1, entries);
        let secondrest = scan_spec(first.1, rest);
        assert(second.0 == seq![Ok::<ScanOutcome, EntryError>(o2)] + secondrest.0);
        assert(second.1 == secondrest.1);
        lemma_scan_spec_len(first.1, rest);
        assert(second.0[0] == Ok::<ScanOutcome, EntryError>(o2));
        assert forall|i: int|
            0 <= i < entries.len() && first.0[i] != Ok::<ScanOutcome, EntryError>(
                ScanOutcome::CorruptionDetected,
            ) implies #[trigger] second.0[i] == Ok::<ScanOutcome, EntryError>(
            ScanOutcome::Unchanged,
        ) by {
            if i == 0 {
                assert(first.0[0] == Ok::<ScanOutcome, EntryError>(o1));
            } else {
                assert(first.0[i] == restpass.0[i - 1]);
                assert(second.0[i] == secondrest.0[i - 1]);
            }
        }
        assert forall|i: int|
            0 <= i < entries.len() && first.0[i] == Ok::<ScanOutcome, EntryError>(
                ScanOutcome::CorruptionDetected,
            ) implies #[trigger] second.0[i] == Ok::<ScanOutcome, EntryError>(
            ScanOutcome::CorruptionDetected,
        ) by {
            if i == 0 {
                assert(first.0[0] == Ok::<ScanOutcome, EntryError>(o1));
            } else {
                assert(first.0[i] == restpass.0[i - 1]);
                assert(second.0[i] == secondrest.0[i - 1]);
            }
        }
    }
}

/// Idempotence: scanning a path again with the same observed record leaves
/// the store exactly where the first scan put it, and reports `Unchanged`
/// whenever the first scan did not flag corruption (a corrupted path, whose
/// baseline is deliberately preserved, is flagged again instead).
pub proof fn lemma_scan_idempotent(view: Map<Seq<u8>, Seq<u8>>, key: Seq<u8>, observed: File)
    ensures
        scan_entry_spec(view, key, observed) matches Ok(first) ==> {
            let second = scan_entry_spec(first.1, key, observed);
            &&& second is Ok
            &&& second->Ok_0.1 == first.1
            &&& first.0 != ScanOutcome::CorruptionDetected ==> second->Ok_0.0
                == ScanOutcome::Unchanged
            &&& first.0 == ScanOutcome::CorruptionDetected ==> second->Ok_0.0
                == ScanOutcome::CorruptionDetected
        },
{
    if scan_entry_spec(view, key, observed) is Ok {
        let first = scan_entry_spec(view, key, observed)->Ok_0;
        lemma_record_round_trip(observed);
        if updates_baseline(first.0) {
            assert(first.1 == view.insert(key, spec_encode(observed)));
            assert(first.1[key] == spec_encode(observed));
        }
    }
}

/// Corruption detection: a digest change with no modification-time advance
/// is flagged as corruption, and the stored baseline is left untouched so
/// that recovery can still reach the good digest.
pub proof fn lemma_corruption_preserves_baseline(
    view: Map<Seq<u8>, Seq<u8>>,
    key: Seq<u8>,
    observed: File,
)
    requires
        view.contains_key(key),
        decodable(view[key]),
        observed.hash != spec_decode(view[key]).hash,
        observed.modified <= spec_decode(view[key]).modified,
    ensures
        scan_entry_spec(view, key, observed) == Ok::<_, EntryError>(
            (ScanOutcome::CorruptionDetected, view),
        ),
{
}

/// Legitimate edit: a digest change together with a modification-time
/// advance moves the baseline to the observed record without flagging
/// corruption, and the new stored value reads back as that record.
pub proof fn lemma_legitimate_edit(view: Map<Seq<u8>, Seq<u8>>, key: Seq<u8>, observed: File)
    requires
        view.contains_key(key),
        decodable(view[key]),
        observed.hash != spec_decode(view[key]).hash,
        observed.modified > spec_decode(view[key]).modified,
    ensures
        scan_entry_spec(view, key, observed) == Ok::<_, EntryError>(
            (ScanOutcome::UpdatedNewer, view.insert(key, spec_encode(observed))),
        ),
        decodable(view.insert(key, spec_encode(observed))[key]),
        spec_decode(view.insert(key, spec_encode(observed))[key]) == observed,
{
    lemma_record_round_trip(observed);
}

} // verus!
