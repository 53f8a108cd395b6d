//! The baseline store: a persistent map from path bytes to record bytes,
//! kept by the sled crate and modelled here as a `Map<Seq<u8>, Seq<u8>>`.

use vstd::prelude::*;

verus! {

#[verifier::external_type_specification]
#[verifier::external_body]
pub struct ExDb(sled::Db);

#[verifier::external_type_specification]
#[verifier::external_body]
pub struct ExSledError(sled::Error);

/// The key-value contents a store handle currently holds.
pub uninterp spec fn db_view(db: sled::Db) -> Map<Seq<u8>, Seq<u8>>;

/// Relies on Tree::get (reached through Db's Deref): returns the value
/// stored under `key`, or `None` when the key is absent.
#[verifier::external_body]
pub(crate) fn db_get(db: &sled::Db, key: &[u8]) -> (r: Result<Option<Vec<u8>>, sled::Error>)
    ensures
        r matches Ok(v) ==> match v {
            Some(bytes) => db_view(*db).contains_key(key@) && bytes@ == db_view(*db)[key@],
            None => !db_view(*db).contains_key(key@),
        },
{
    match db.get(key) {
        Ok(Some(v)) => Ok(Some(v.as_ref().to_vec())),
        Ok(None) => Ok(None),
        Err(e) => Err(e),
    }
}

/// Relies on Tree::insert (reached through Db's Deref): upserts `value`
/// under `key`. On an error nothing is assumed of the contents.
#[verifier::external_body]
pub(crate) fn db_insert(db: &mut sled::Db, key: &[u8], value: &[u8]) -> (r: Result<
    (),
    sled::Error,
>)
    ensures
        r is Ok ==> db_view(*final(db)) == db_view(*old(db)).insert(key@, value@),
{
    match db.insert(key, value) {
        Ok(_prev) => Ok(()),
        Err(e) => Err(e),
    }
}

/// Relies on Tree::flush (reached through Db's Deref): durably commits all
/// pending writes, returning how many bytes were flushed. The contents are
/// not changed by flushing.
#[verifier::external_body]
pub(crate) fn db_flush(db: &sled::Db) -> (r: Result<usize, sled::Error>) {
    db.flush()
}

} // verus!
