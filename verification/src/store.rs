//! Content-addressed blob storage and the document store, backed by an
//! embedded `redb` database with four ordered-key tables:
//!
//! - `blobs`:      32-byte digest -> raw blob bytes
//! - `documents`:  UTF-8 id       -> metadata bytes
//! - `doc_data`:   UTF-8 id       -> CRDT state bytes
//! - `doc_hashes`: UTF-8 id       -> digest of the CRDT state
//!
//! The database is reached only through the trusted wrappers below; each
//! wrapper is one committed transaction, and a failed transaction rolls back.
//! The verified operations on `Store` keep the three document tables in step
//! (the same ids everywhere, every stored digest the digest of its state) and
//! the blob table content-addressed.

use vstd::prelude::*;
use vstd::utf8::encode_utf8;
use redb::{ReadableDatabase, ReadableTable};
use crate::digest::{digest_of, hash_bytes};
use crate::merkle::{str_ids, strictly_ascending};
use crate::order::{pairs_rep, ids_rep};

verus! {

/// redb's database handle, declared so it can stand in a field; its contents
/// are visible to contracts only through the table views below.
#[verifier::external_type_specification]
#[verifier::external_body]
pub struct ExDatabase(redb::Database);

/// What the `blobs` table holds: digest bytes to blob bytes.
pub uninterp spec fn blobs_of(db: redb::Database) -> Map<Seq<u8>, Seq<u8>>;

/// What the `documents` table holds: id bytes to metadata bytes.
pub uninterp spec fn docs_of(db: redb::Database) -> Map<Seq<u8>, Seq<u8>>;

/// What the `doc_data` table holds: id bytes to CRDT state bytes.
pub uninterp spec fn data_of(db: redb::Database) -> Map<Seq<u8>, Seq<u8>>;

/// What the `doc_hashes` table holds: id bytes to digest bytes.
pub uninterp spec fn hashes_of(db: redb::Database) -> Map<Seq<u8>, Seq<u8>>;

/// A storage failure, carrying a human-readable message.
#[derive(Debug)]
pub struct StoreError {
    pub message: String,
}

/// The abstract state of the store: the four tables as maps on plain values.
/// Ids appear as the bytes of their UTF-8 encodings.
pub struct StoreModel {
    pub blobs: Map<Seq<u8>, Seq<u8>>,
    pub docs: Map<Seq<u8>, Seq<u8>>,
    pub data: Map<Seq<u8>, Seq<u8>>,
    pub hashes: Map<Seq<u8>, Seq<u8>>,
}

impl StoreModel {
    /// The store's invariant: the three document tables agree on which ids
    /// exist, every stored digest is the digest of the stored state, and
    /// every blob sits under its own digest.
    pub open spec fn wf(self) -> bool {
        &&& forall|id: Seq<u8>|
            #[trigger] self.data.dom().contains(id) <==> self.docs.dom().contains(id)
        &&& forall|id: Seq<u8>|
            #[trigger] self.hashes.dom().contains(id) <==> self.docs.dom().contains(id)
        &&& forall|id: Seq<u8>| #[trigger] self.docs.dom().contains(id) ==> self.hashes[id]
            == digest_of(self.data[id])
        &&& forall|h: Seq<u8>| #[trigger] self.blobs.dom().contains(h) ==> h == digest_of(
            self.blobs[h],
        )
    }

    /// The state after storing blob `data`.
    pub open spec fn with_blob(self, data: Seq<u8>) -> StoreModel {
        StoreModel { blobs: self.blobs.insert(digest_of(data), data), ..self }
    }

    /// The state after storing document `id` with metadata `meta` and CRDT
    /// state `state`: all three document tables updated as one unit.
    pub open spec fn with_doc(self, id: Seq<u8>, meta: Seq<u8>, state: Seq<u8>) -> StoreModel {
        StoreModel {
            blobs: self.blobs,
            docs: self.docs.insert(id, meta),
            data: self.data.insert(id, state),
            hashes: self.hashes.insert(id, digest_of(state)),
        }
    }

    /// The state after deleting document `id` from all three tables.
    pub open spec fn without_doc(self, id: Seq<u8>) -> StoreModel {
        StoreModel {
            blobs: self.blobs,
            docs: self.docs.remove(id),
            data: self.data.remove(id),
            hashes: self.hashes.remove(id),
        }
    }
}

/// The abstract state read off a database handle.
pub open spec fn model_of(db: redb::Database) -> StoreModel {
    StoreModel {
        blobs: blobs_of(db),
        docs: docs_of(db),
        data: data_of(db),
        hashes: hashes_of(db),
    }
}

/// Relies on `redb::Database::create`: opens or creates the database file at
/// `path` and makes sure all four tables exist. The tables are written only
/// by the operations of this module, which preserve `StoreModel::wf`; a
/// database file left by an earlier session is assumed to satisfy the same
/// invariant, on the same grounds, since this process cannot re-derive the
/// digests without reading every row.
#[verifier::external_body]
fn open_db(path: &str) -> (r: Result<redb::Database, StoreError>)
    ensures
        r matches Ok(db) ==> model_of(db).wf(),
{
    let f = || -> Result<redb::Database, redb::Error> {
        let db = redb::Database::create(path)?;
        let txn = db.begin_write()?;
        {
            let _ = txn.open_table(redb::TableDefinition::<&[u8], &[u8]>::new("blobs"))?;
            let _ = txn.open_table(redb::TableDefinition::<&str, &[u8]>::new("documents"))?;
            let _ = txn.open_table(redb::TableDefinition::<&str, &[u8]>::new("doc_data"))?;
            let _ = txn.open_table(redb::TableDefinition::<&str, &[u8]>::new("doc_hashes"))?;
        }
        txn.commit()?;
        Ok(db)
    };
    f().map_err(|e| StoreError { message: e.to_string() })
}

/// The four tables hold the same rows in `b` as in `a`.
pub open spec fn same_tables(a: redb::Database, b: redb::Database) -> bool {
    &&& blobs_of(b) == blobs_of(a)
    &&& docs_of(b) == docs_of(a)
    &&& data_of(b) == data_of(a)
    &&& hashes_of(b) == hashes_of(a)
}

/// Relies on `redb::Table::insert` in one committed write transaction:
/// stores `data` under `hash` in the `blobs` table, replacing any previous
/// row; a failed transaction is rolled back.
#[verifier::external_body]
fn db_put_blob(db: &mut redb::Database, hash: &Vec<u8>, data: &Vec<u8>) -> (r: Result<
    (),
    StoreError,
>)
    ensures
        r is Ok ==> blobs_of(*final(db)) == blobs_of(*old(db)).insert(hash@, data@) && docs_of(
            *final(db),
        ) == docs_of(*old(db)) && data_of(*final(db)) == data_of(*old(db)) && hashes_of(*final(db))
            == hashes_of(*old(db)),
        r is Err ==> same_tables(*old(db), *final(db)),
{
    let f = || -> Result<(), redb::Error> {
        let txn = db.begin_write()?;
        {
            let mut t = txn.open_table(redb::TableDefinition::<&[u8], &[u8]>::new("blobs"))?;
            t.insert(hash.as_slice(), data.as_slice())?;
        }
        txn.commit()?;
        Ok(())
    };
    f().map_err(|e| StoreError { message: e.to_string() })
}

/// Relies on `redb::ReadableTable::get` in one read transaction: fetches the
/// `blobs` row under `hash`, if any.
#[verifier::external_body]
fn db_get_blob(db: &redb::Database, hash: &Vec<u8>) -> (r: Result<Option<Vec<u8>>, StoreError>)
    ensures
        r matches Ok(o) ==> (o matches Some(v) ==> blobs_of(*db).contains_key(hash@) && v@
            == blobs_of(*db)[hash@]) && (o is None ==> !blobs_of(*db).contains_key(hash@)),
{
    let f = || -> Result<Option<Vec<u8>>, redb::Error> {
        let txn = db.begin_read()?;
        let t = txn.open_table(redb::TableDefinition::<&[u8], &[u8]>::new("blobs"))?;
        Ok(t.get(hash.as_slice())?.map(|v| v.value().to_vec()))
    };
    f().map_err(|e| StoreError { message: e.to_string() })
}

/// Relies on `redb::ReadableTable::get` in one read transaction: whether the
/// `blobs` table has a row under `hash`.
#[verifier::external_body]
fn db_has_blob(db: &redb::Database, hash: &Vec<u8>) -> (r: Result<bool, StoreError>)
    ensures
        r matches Ok(b) ==> b == blobs_of(*db).contains_key(hash@),
{
    let f = || -> Result<bool, redb::Error> {
        let txn = db.begin_read()?;
        let t = txn.open_table(redb::TableDefinition::<&[u8], &[u8]>::new("blobs"))?;
        Ok(t.get(hash.as_slice())?.is_some())
    };
    f().map_err(|e| StoreError { message: e.to_string() })
}

/// Relies on `redb::Table::insert` in one committed write transaction:
/// writes `meta`, `state` and `hash` under `id` into the three document
/// tables as one atomic unit; a failed transaction is rolled back.
#[verifier::external_body]
fn db_put_document(
    db: &mut redb::Database,
    id: &String,
    meta: &Vec<u8>,
    state: &Vec<u8>,
    hash: &Vec<u8>,
) -> (r: Result<(), StoreError>)
    ensures
        r is Ok ==> docs_of(*final(db)) == docs_of(*old(db)).insert(encode_utf8(id@), meta@)
            && data_of(*final(db)) == data_of(*old(db)).insert(encode_utf8(id@), state@)
            && hashes_of(*final(db)) == hashes_of(*old(db)).insert(encode_utf8(id@), hash@)
            && blobs_of(*final(db)) == blobs_of(*old(db)),
        r is Err ==> same_tables(*old(db), *final(db)),
{
    let f = || -> Result<(), redb::Error> {
        let txn = db.begin_write()?;
        {
            let mut docs = txn.open_table(redb::TableDefinition::<&str, &[u8]>::new("documents"))?;
            docs.insert(id.as_str(), meta.as_slice())?;
            let mut data = txn.open_table(redb::TableDefinition::<&str, &[u8]>::new("doc_data"))?;
            data.insert(id.as_str(), state.as_slice())?;
            let mut hs = txn.open_table(redb::TableDefinition::<&str, &[u8]>::new("doc_hashes"))?;
            hs.insert(id.as_str(), hash.as_slice())?;
        }
        txn.commit()?;
        Ok(())
    };
    f().map_err(|e| StoreError { message: e.to_string() })
}

/// Relies on `redb::ReadableTable::get` in one read transaction: the
/// `documents` and `doc_data` rows under `id`, each if present.
#[verifier::external_body]
fn db_get_document(db: &redb::Database, id: &String) -> (r: Result<
    (Option<Vec<u8>>, Option<Vec<u8>>),
    StoreError,
>)
    ensures
        r matches Ok(p) ==> (p.0 matches Some(m) ==> docs_of(*db).contains_key(encode_utf8(id@))
            && m@ == docs_of(*db)[encode_utf8(id@)]) && (p.0 is None ==> !docs_of(
            *db,
        ).contains_key(encode_utf8(id@))) && (p.1 matches Some(d) ==> data_of(*db).contains_key(
            encode_utf8(id@),
        ) && d@ == data_of(*db)[encode_utf8(id@)]) && (p.1 is None ==> !data_of(*db).contains_key(
            encode_utf8(id@),
        )),
{
    let f = || -> Result<(Option<Vec<u8>>, Option<Vec<u8>>), redb::Error> {
        let txn = db.begin_read()?;
        let docs = txn.open_table(redb::TableDefinition::<&str, &[u8]>::new("documents"))?;
        let data = txn.open_table(redb::TableDefinition::<&str, &[u8]>::new("doc_data"))?;
        let m = docs.get(id.as_str())?.map(|v| v.value().to_vec());
        let d = data.get(id.as_str())?.map(|v| v.value().to_vec());
        Ok((m, d))
    };
    f().map_err(|e| StoreError { message: e.to_string() })
}

/// Relies on `redb::Table::remove` in one committed write transaction:
/// removes `id` from the three document tables as one atomic unit, reporting
/// whether the `documents` table had it; a failed transaction is rolled back.
#[verifier::external_body]
fn db_delete_document(db: &mut redb::Database, id: &String) -> (r: Result<bool, StoreError>)
    ensures
        r matches Ok(b) ==> b == docs_of(*old(db)).contains_key(encode_utf8(id@)) && docs_of(
            *final(db),
        ) == docs_of(*old(db)).remove(encode_utf8(id@)) && data_of(*final(db)) == data_of(
            *old(db),
        ).remove(encode_utf8(id@)) && hashes_of(*final(db)) == hashes_of(*old(db)).remove(
            encode_utf8(id@),
        ) && blobs_of(*final(db)) == blobs_of(*old(db)),
        r is Err ==> same_tables(*old(db), *final(db)),
{
    let f = || -> Result<bool, redb::Error> {
        let txn = db.begin_write()?;
        let existed;
        {
            let mut docs = txn.open_table(redb::TableDefinition::<&str, &[u8]>::new("documents"))?;
            existed = docs.remove(id.as_str())?.is_some();
            let mut data = txn.open_table(redb::TableDefinition::<&str, &[u8]>::new("doc_data"))?;
            data.remove(id.as_str())?;
            let mut hs = txn.open_table(redb::TableDefinition::<&str, &[u8]>::new("doc_hashes"))?;
            hs.remove(id.as_str())?;
        }
        txn.commit()?;
        Ok(existed)
    };
    f().map_err(|e| StoreError { message: e.to_string() })
}

/// Relies on `redb` table iteration over the `documents` table: keys come
/// back ascending in byte order, one for each stored row.
#[verifier::external_body]
fn db_list_documents(db: &redb::Database) -> (r: Result<Vec<String>, StoreError>)
    ensures
        r matches Ok(ids) ==> strictly_ascending(str_ids(ids@)) && (forall|i: int|
            0 <= i < ids@.len() ==> docs_of(*db).contains_key(#[trigger] str_ids(ids@)[i])) && (
        forall|k: Seq<u8>| #[trigger] docs_of(*db).contains_key(k) ==> str_ids(ids@).contains(k)),
{
    let f = || -> Result<Vec<String>, redb::Error> {
        let txn = db.begin_read()?;
        let t = txn.open_table(redb::TableDefinition::<&str, &[u8]>::new("documents"))?;
        let out = t.iter()?.map(|e| e.map(|(k, _v)| k.value().to_string())).collect::<Result<
            Vec<String>,
            _,
        >>()?;
        Ok(out)
    };
    f().map_err(|e| StoreError { message: e.to_string() })
}

/// Relies on `redb::ReadableTable::get` in one read transaction: the
/// `doc_hashes` row under `id`, if any.
#[verifier::external_body]
fn db_get_doc_hash(db: &redb::Database, id: &String) -> (r: Result<Option<Vec<u8>>, StoreError>)
    ensures
        r matches Ok(o) ==> (o matches Some(v) ==> hashes_of(*db).contains_key(encode_utf8(id@))
            && v@ == hashes_of(*db)[encode_utf8(id@)]) && (o is None ==> !hashes_of(
            *db,
        ).contains_key(encode_utf8(id@))),
{
    let f = || -> Result<Option<Vec<u8>>, redb::Error> {
        let txn = db.begin_read()?;
        let t = txn.open_table(redb::TableDefinition::<&str, &[u8]>::new("doc_hashes"))?;
        Ok(t.get(id.as_str())?.map(|v| v.value().to_vec()))
    };
    f().map_err(|e| StoreError { message: e.to_string() })
}

/// Relies on `redb` table iteration over the `doc_hashes` table: rows come
/// back ascending in key byte order, one for each stored row.
#[verifier::external_body]
fn db_all_doc_hashes(db: &redb::Database) -> (r: Result<Vec<(String, Vec<u8>)>, StoreError>)
    ensures
        r matches Ok(out) ==> strictly_ascending(ids_rep(pairs_rep(out@))) && (forall|i: int|
            0 <= i < out@.len() ==> hashes_of(*db).contains_key(#[trigger] pairs_rep(out@)[i].0)
                && pairs_rep(out@)[i].1 == hashes_of(*db)[pairs_rep(out@)[i].0]) && (forall|
            k: Seq<u8>,
        |
            #[trigger] hashes_of(*db).contains_key(k) ==> ids_rep(pairs_rep(out@)).contains(k)),
{
    let f = || -> Result<Vec<(String, Vec<u8>)>, redb::Error> {
        let txn = db.begin_read()?;
        let t = txn.open_table(redb::TableDefinition::<&str, &[u8]>::new("doc_hashes"))?;
        let out = t.iter()?.map(
            |e| e.map(|(k, v)| (k.value().to_string(), v.value().to_vec())),
        ).collect::<Result<Vec<(String, Vec<u8>)>, _>>()?;
        Ok(out)
    };
    f().map_err(|e| StoreError { message: e.to_string() })
}

/// The document and blob store.
pub struct Store {
    db: redb::Database,
}

impl View for Store {
    type V = StoreModel;

    closed spec fn view(&self) -> StoreModel {
        model_of(self.db)
    }
}

impl Store {
    /// Opens (or creates) the database file at `path` and mounts the tables.
    pub fn open(path: &str) -> (r: Result<Store, StoreError>)
        ensures
            r matches Ok(s) ==> s@.wf(),
    {
        match open_db(path) {
            Ok(db) => Ok(Store { db }),
            Err(e) => Err(e),
        }
    }

    /// Stores `data` and returns its 32-byte digest. On success the blob
    /// table maps exactly that digest to `data`; the document tables are
    /// untouched. The digest depends on `data` alone, so storing the same
    /// bytes twice returns the same digest and leaves the same table.
    pub fn put_blob(&mut self, data: &Vec<u8>) -> (r: Result<Vec<u8>, StoreError>)
        requires
            old(self)@.wf(),
        ensures
            final(self)@.wf(),
            r matches Ok(h) ==> h@ == digest_of(data@) && h@.len() == 32 && final(self)@ == old(
                self,
            )@.with_blob(data@),
            r is Err ==> final(self)@ == old(self)@,
    {
        let h = hash_bytes(data.as_slice());
        match db_put_blob(&mut self.db, &h, data) {
            Ok(()) => {
                proof {
                    assert(final(self)@ == old(self)@.with_blob(data@));
                    assert forall|x: Seq<u8>| #[trigger] final(self)@.blobs.dom().contains(x)
                        implies x == digest_of(final(self)@.blobs[x]) by {
                        if x != digest_of(data@) {
                            assert(old(self)@.blobs.dom().contains(x));
                        }
                    }
                }
                Ok(h)
            },
            Err(e) => Err(e),
        }
    }

    /// Fetches a blob by digest; `Some` exactly when the digest is present,
    /// and then the stored bytes come back unchanged.
    pub fn get_blob(&self, hash: &Vec<u8>) -> (r: Result<Option<Vec<u8>>, StoreError>)
        ensures
            r matches Ok(o) ==> (o matches Some(v) ==> self@.blobs.contains_key(hash@) && v@
                == self@.blobs[hash@]) && (o is None ==> !self@.blobs.contains_key(hash@)),
    {
        db_get_blob(&self.db, hash)
    }

    /// Whether a blob with this digest is stored.
    pub fn has_blob(&self, hash: &Vec<u8>) -> (r: Result<bool, StoreError>)
        ensures
            r matches Ok(b) ==> b == self@.blobs.contains_key(hash@),
    {
        db_has_blob(&self.db, hash)
    }

    /// Stores or replaces the document as one atomic unit: metadata, CRDT
    /// state, and the freshly computed digest of that state.
    pub fn put_document(&mut self, id: &String, meta: &Vec<u8>, crdt_state: &Vec<u8>) -> (r: Result<
        (),
        StoreError,
    >)
        requires
            old(self)@.wf(),
        ensures
            final(self)@.wf(),
            r is Ok ==> final(self)@ == old(self)@.with_doc(encode_utf8(id@), meta@, crdt_state@),
            r is Err ==> final(self)@ == old(self)@,
    {
        let h = hash_bytes(crdt_state.as_slice());
        match db_put_document(&mut self.db, id, meta, crdt_state, &h) {
            Ok(()) => {
                proof {
                    lemma_with_doc_wf(old(self)@, encode_utf8(id@), meta@, crdt_state@);
                    assert(final(self)@ == old(self)@.with_doc(
                        encode_utf8(id@),
                        meta@,
                        crdt_state@,
                    ));
                }
                Ok(())
            },
            Err(e) => Err(e),
        }
    }

    /// Fetches `(meta, crdt_state)`; `Some` exactly when the id is stored,
    /// and then both come back unchanged.
    pub fn get_document(&self, id: &String) -> (r: Result<
        Option<(Vec<u8>, Vec<u8>)>,
        StoreError,
    >)
        requires
            self@.wf(),
        ensures
            r matches Ok(o) ==> (o matches Some(p) ==> self@.docs.contains_key(encode_utf8(id@))
                && p.0@ == self@.docs[encode_utf8(id@)] && p.1@ == self@.data[encode_utf8(id@)]) && (
            o is None ==> !self@.docs.contains_key(encode_utf8(id@))),
    {
        match db_get_document(&self.db, id) {
            Ok((Some(m), Some(d))) => Ok(Some((m, d))),
            Ok(_) => Ok(None),
            Err(e) => Err(e),
        }
    }

    /// Removes the document from all three tables as one atomic unit and
    /// reports whether it was present. Removing an absent id commits a no-op
    /// and reports `false`.
    pub fn delete_document(&mut self, id: &String) -> (r: Result<bool, StoreError>)
        requires
            old(self)@.wf(),
        ensures
            final(self)@.wf(),
            r matches Ok(b) ==> b == old(self)@.docs.contains_key(encode_utf8(id@)) && final(self)@
                == old(self)@.without_doc(encode_utf8(id@)),
            r is Err ==> final(self)@ == old(self)@,
    {
        match db_delete_document(&mut self.db, id) {
            Ok(b) => {
                proof {
                    lemma_without_doc_wf(old(self)@, encode_utf8(id@));
                    assert(final(self)@ == old(self)@.without_doc(encode_utf8(id@)));
                }
                Ok(b)
            },
            Err(e) => Err(e),
        }
    }

    /// All stored document ids, ascending in byte order, one for each row of
    /// the metadata table.
    pub fn list_documents(&self) -> (r: Result<Vec<String>, StoreError>)
        ensures
            r matches Ok(ids) ==> strictly_ascending(str_ids(ids@)) && (forall|i: int|
                0 <= i < ids@.len() ==> self@.docs.contains_key(#[trigger] str_ids(ids@)[i])) && (
            forall|k: Seq<u8>| #[trigger] self@.docs.contains_key(k) ==> str_ids(ids@).contains(
                k,
            )),
    {
        db_list_documents(&self.db)
    }

    /// The stored state digest for `id`, if any.
    pub fn get_doc_hash(&self, id: &String) -> (r: Result<Option<Vec<u8>>, StoreError>)
        ensures
            r matches Ok(o) ==> (o matches Some(v) ==> self@.hashes.contains_key(encode_utf8(id@))
                && v@ == self@.hashes[encode_utf8(id@)]) && (o is None ==> !self@.hashes.contains_key(
                encode_utf8(id@),
            )),
    {
        db_get_doc_hash(&self.db, id)
    }

    /// Looks each id up in input order; ids that are not stored are left out.
    pub fn get_doc_hashes(&self, ids: &Vec<String>) -> (r: Result<
        Vec<(String, Vec<u8>)>,
        StoreError,
    >)
        ensures
            r matches Ok(out) ==> pairs_rep(out@) == hash_selection(self@, str_ids(ids@)),
    {
        let mut out: Vec<(String, Vec<u8>)> = Vec::new();
        let mut i: usize = 0;
        while i < ids.len()
            invariant
                i <= ids@.len(),
                pairs_rep(out@) =~= hash_selection(self@, str_ids(ids@).take(i as int)),
            decreases ids@.len() - i,
        {
            let ghost prefix = str_ids(ids@).take(i as int);
            match db_get_doc_hash(&self.db, &ids[i]) {
                Err(e) => {
                    return Err(e);
                },
                Ok(Some(h)) => {
                    let ghost prev = out@;
                    out.push((ids[i].clone(), h));
                    proof {
                        lemma_hash_selection_snoc(self@, str_ids(ids@), i as int);
                        assert(pairs_rep(out@) =~= pairs_rep(prev).push(
                            (encode_utf8(ids@[i as int]@), self@.hashes[encode_utf8(
                                ids@[i as int]@,
                            )]),
                        ));
                        assert(str_ids(ids@).take(i + 1) =~= prefix.push(str_ids(ids@)[i as int]));
                    }
                },
                Ok(None) => {
                    proof {
                        lemma_hash_selection_snoc(self@, str_ids(ids@), i as int);
                        assert(str_ids(ids@).take(i + 1) =~= prefix.push(str_ids(ids@)[i as int]));
                    }
                },
            }
            i = i + 1;
        }
        proof {
            assert(str_ids(ids@).take(ids@.len() as int) =~= str_ids(ids@));
        }
        Ok(out)
    }

    /// Every stored `(id, state digest)` pair, ascending in id byte order.
    pub fn all_doc_hashes(&self) -> (r: Result<Vec<(String, Vec<u8>)>, StoreError>)
        ensures
            r matches Ok(out) ==> strictly_ascending(ids_rep(pairs_rep(out@))) && (forall|i: int|
                0 <= i < out@.len() ==> self@.hashes.contains_key(
                    #[trigger] pairs_rep(out@)[i].0,
                ) && pairs_rep(out@)[i].1 == self@.hashes[pairs_rep(out@)[i].0]) && (forall|
                k: Seq<u8>,
            |
                #[trigger] self@.hashes.contains_key(k) ==> ids_rep(pairs_rep(out@)).contains(k)),
    {
        db_all_doc_hashes(&self.db)
    }
}

/// The pairs `get_doc_hashes` returns: each requested id that is stored, in
/// request order, with its stored digest.
pub open spec fn hash_selection(m: StoreModel, ids: Seq<Seq<u8>>) -> Seq<(Seq<u8>, Seq<u8>)>
    decreases ids.len(),
{
    if ids.len() == 0 {
        Seq::empty()
    } else {
        let rest = hash_selection(m, ids.drop_last());
        if m.hashes.dom().contains(ids.last()) {
            rest.push((ids.last(), m.hashes[ids.last()]))
        } else {
            rest
        }
    }
}

proof fn lemma_hash_selection_snoc(m: StoreModel, ids: Seq<Seq<u8>>, i: int)
    requires
        0 <= i < ids.len(),
    ensures
        hash_selection(m, ids.take(i + 1)) == if m.hashes.dom().contains(ids[i]) {
            hash_selection(m, ids.take(i)).push((ids[i], m.hashes[ids[i]]))
        } else {
            hash_selection(m, ids.take(i))
        },
{
    let t = ids.take(i + 1);
    assert(t.drop_last() =~= ids.take(i));
    assert(t.last() == ids[i]);
}

/// Storing a document preserves the store invariant.
proof fn lemma_with_doc_wf(m: StoreModel, id: Seq<u8>, meta: Seq<u8>, state: Seq<u8>)
    requires
        m.wf(),
    ensures
        m.with_doc(id, meta, state).wf(),
{
    let m2 = m.with_doc(id, meta, state);
    assert forall|x: Seq<u8>| #[trigger] m2.docs.dom().contains(x) implies m2.hashes[x]
        == digest_of(m2.data[x]) by {
        if x != id {
            assert(m.docs.dom().contains(x));
        }
    }
}

/// Deleting a document preserves the store invariant.
proof fn lemma_without_doc_wf(m: StoreModel, id: Seq<u8>)
    requires
        m.wf(),
    ensures
        m.without_doc(id).wf(),
{
    let m2 = m.without_doc(id);
    assert forall|x: Seq<u8>| #[trigger] m2.docs.dom().contains(x) implies m2.hashes[x]
        == digest_of(m2.data[x]) by {
        assert(m.docs.dom().contains(x));
    }
}

/// Blob round-trip: after storing `data`, the blob table holds exactly
/// `data` under its digest, and an existence check under that digest
/// succeeds.
pub proof fn lemma_blob_round_trip(m: StoreModel, data: Seq<u8>)
    ensures
        m.with_blob(data).blobs.contains_key(digest_of(data)),
        m.with_blob(data).blobs[digest_of(data)] == data,
{
}

/// Blob determinism: the digest a blob is stored under is a function of its
/// bytes alone, so storing equal byte strings always yields equal digests.
pub proof fn lemma_blob_digest_deterministic(b1: Seq<u8>, b2: Seq<u8>)
    requires
        b1 == b2,
    ensures
        digest_of(b1) == digest_of(b2),
{
}

/// Document round-trip: after storing `(id, meta, state)`, reading the
/// document back yields exactly `meta` and `state`, and its stored digest is
/// the digest of `state`.
pub proof fn lemma_document_round_trip(m: StoreModel, id: Seq<u8>, meta: Seq<u8>, state: Seq<u8>)
    ensures
        m.with_doc(id, meta, state).docs.contains_key(id),
        m.with_doc(id, meta, state).docs[id] == meta,
        m.with_doc(id, meta, state).data[id] == state,
        m.with_doc(id, meta, state).hashes[id] == digest_of(state),
{
}

/// Delete idempotence: after one deletion the id is gone, and deleting it
/// again finds nothing and changes nothing.
pub proof fn lemma_delete_idempotent(m: StoreModel, id: Seq<u8>)
    ensures
        !m.without_doc(id).docs.contains_key(id),
        m.without_doc(id).without_doc(id) == m.without_doc(id),
{
    let m1 = m.without_doc(id);
    let m2 = m1.without_doc(id);
    assert(m2.docs =~= m1.docs);
    assert(m2.data =~= m1.data);
    assert(m2.hashes =~= m1.hashes);
}

} // verus!
