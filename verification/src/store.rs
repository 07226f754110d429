//! The storage engine: one table mapping normalized command text to
//! serialized usage statistics, held in a redb database. Every operation is
//! one atomic transaction; recording is an atomic read-modify-write per key,
//! so concurrent recordings of the same command lose no update; bulk import
//! and pruning span many keys in one all-or-nothing transaction.
//!
//! The contents are modeled as a map from the key's characters to the
//! stored value's bytes. `db_view` gives the committed contents of a store
//! and `txn_view` the pending contents of an open write transaction; the
//! redb calls behind them are trusted to behave as each wrapper's contract
//! states, and everything above the wrappers is verified against that
//! model.

use vstd::prelude::*;

use crate::codec::{decode_spec, decode_stats, encode_stats, lemma_stats_round_trip, stats_bytes};
use crate::record::{ignored_spec, key_spec, merge_spec, CmdData, CmdRecord};

verus! {

/// What can go wrong at a transaction boundary: the store cannot be opened
/// or the engine fails (`StorageUnavailable`), a concurrent writer conflicted
/// (`TransactionConflict`), a stored value does not decode (`Corruption`), or
/// a structured import row cannot be used (`MalformedImportRecord`).
#[derive(Debug, Clone, Copy, PartialEq, Eq, Structural)]
pub enum StoreError {
    StorageUnavailable,
    TransactionConflict,
    Corruption,
    MalformedImportRecord,
}

/// An engine-level failure inside a redb call: reported to callers as
/// `StorageUnavailable`.
#[derive(Debug, Clone, Copy, PartialEq, Eq, Structural)]
pub struct EngineFailure;

#[verifier::external_type_specification]
#[verifier::external_body]
pub struct ExDatabase(redb::Database);

#[verifier::external_type_specification]
#[verifier::external_body]
pub struct ExWriteTransaction(redb::WriteTransaction);

/// The committed contents of a database: normalized command text to stored
/// statistics bytes.
pub uninterp spec fn db_view(db: redb::Database) -> Map<Seq<char>, Seq<u8>>;

/// The pending contents seen by an open write transaction: the snapshot it
/// started from plus its own writes.
pub uninterp spec fn txn_view(txn: redb::WriteTransaction) -> Map<Seq<char>, Seq<u8>>;

/// A handle on the history store.
pub struct Db {
    pub db: redb::Database,
}

impl Db {
    /// The committed contents of this store.
    pub open spec fn view_map(self) -> Map<Seq<char>, Seq<u8>> {
        db_view(self.db)
    }

    /// Opens or creates the store at `path`. An existing store keeps the
    /// contents it held, so nothing is promised of them. Fails with
    /// `StorageUnavailable` when the location cannot be created or the
    /// on-disk format is incompatible, and with no other error.
    pub fn open(path: &str) -> (r: Result<Db, StoreError>)
        ensures
            r is Err ==> r == Err::<Db, StoreError>(StoreError::StorageUnavailable),
    {
        match create_database(path) {
            Ok(db) => Ok(Db { db }),
            Err(_) => Err(StoreError::StorageUnavailable),
        }
    }

    /// Opens a fresh store kept in memory, provably holding no entries; its
    /// contents vanish when the handle is dropped. The emptiness is not
    /// taken on trust: the fresh store is scanned once, and a store that
    /// somehow held data would be refused.
    pub fn open_in_memory() -> (r: Result<Db, StoreError>)
        ensures
            r matches Ok(s) ==> s.view_map() == Map::<Seq<char>, Seq<u8>>::empty(),
            r is Err ==> r == Err::<Db, StoreError>(StoreError::StorageUnavailable),
    {
        let db = match create_in_memory_database() {
            Ok(db) => db,
            Err(_) => return Err(StoreError::StorageUnavailable),
        };
        let store = Db { db };
        match store.scan_all() {
            Ok(entries) => {
                if entries.len() == 0 {
                    proof {
                        assert(entries_map(entries@) =~= Map::<Seq<char>, Seq<u8>>::empty());
                    }
                    Ok(store)
                } else {
                    Err(StoreError::StorageUnavailable)
                }
            },
            Err(_) => Err(StoreError::StorageUnavailable),
        }
    }

    /// Relies on `redb::Database::begin_write`: redb serializes write
    /// transactions, and a new one starts from the committed contents.
    #[verifier::external_body]
    fn begin_write(&self) -> (r: Result<redb::WriteTransaction, EngineFailure>)
        ensures
            r matches Ok(t) ==> txn_view(t) == db_view(self.db),
    {
        match self.db.begin_write() {
            Ok(t) => Ok(t),
            Err(_) => Err(EngineFailure),
        }
    }

    /// Relies on `redb::WriteTransaction::commit`: on success the
    /// transaction's writes become the committed contents atomically; on
    /// failure the transaction is rolled back and the contents stay.
    #[verifier::external_body]
    fn commit(&mut self, txn: redb::WriteTransaction) -> (r: Result<(), EngineFailure>)
        ensures
            r is Ok ==> db_view(final(self).db) == txn_view(txn),
            r is Err ==> db_view(final(self).db) == db_view(old(self).db),
    {
        match txn.commit() {
            Ok(()) => Ok(()),
            Err(_) => Err(EngineFailure),
        }
    }

    /// Relies on `Database::begin_read`, `ReadTransaction::open_table` and
    /// `ReadableTable::iter` of redb: a read transaction sees a consistent
    /// point-in-time snapshot; iteration yields every stored key exactly
    /// once with its value; a store whose table was never written holds
    /// nothing.
    #[verifier::external_body]
    pub(crate) fn scan_all(&self) -> (r: Result<Vec<(String, Vec<u8>)>, EngineFailure>)
        ensures
            r matches Ok(v) ==> entries_wf(v@) && entries_map(v@) == db_view(self.db),
    {
        let rtxn = self.db.begin_read().map_err(|_| EngineFailure)?;
        let table = match rtxn.open_table(redb::TableDefinition::<&str, &[u8]>::new("rireq")) {
            Ok(t) => t,
            Err(redb::TableError::TableDoesNotExist(_)) => return Ok(Vec::new()),
            Err(_) => return Err(EngineFailure),
        };
        let mut out = Vec::new();
        for item in redb::ReadableTable::iter(&table).map_err(|_| EngineFailure)? {
            let (k, v) = item.map_err(|_| EngineFailure)?;
            out.push((k.value().to_string(), v.value().to_vec()));
        }
        Ok(out)
    }
}

/// Relies on `redb::Database::create`: opens or creates the one-file
/// database at `path`, with redb's own multi-process file locking.
#[verifier::external_body]
fn create_database(path: &str) -> (r: Result<redb::Database, EngineFailure>) {
    match redb::Database::create(path) {
        Ok(db) => Ok(db),
        Err(_) => Err(EngineFailure),
    }
}

/// Relies on `redb::Builder::create_with_backend` with redb's in-memory
/// backend: a freshly created in-memory database holds no table and so no
/// entries.
#[verifier::external_body]
fn create_in_memory_database() -> (r: Result<redb::Database, EngineFailure>) {
    let backend = redb::backends::InMemoryBackend::new();
    match redb::Database::builder().create_with_backend(backend) {
        Ok(db) => Ok(db),
        Err(_) => Err(EngineFailure),
    }
}

/// Relies on `WriteTransaction::open_table` and `Table::get` of redb: the
/// value read is the one the transaction currently maps the key to.
/// Opening the table creates it when absent, which adds no entries.
#[verifier::external_body]
fn txn_get(txn: &redb::WriteTransaction, key: &str) -> (r: Result<Option<Vec<u8>>, EngineFailure>)
    ensures
        r matches Ok(v) ==> match v {
            Some(b) => txn_view(*txn).contains_key(key@) && b@ == txn_view(*txn)[key@],
            None => !txn_view(*txn).contains_key(key@),
        },
{
    let table = match txn.open_table(redb::TableDefinition::<&str, &[u8]>::new("rireq")) {
        Ok(t) => t,
        Err(_) => return Err(EngineFailure),
    };
    let r = match redb::ReadableTable::get(&table, key) {
        Ok(Some(guard)) => Ok(Some(guard.value().to_vec())),
        Ok(None) => Ok(None),
        Err(_) => Err(EngineFailure),
    };
    r
}

/// Relies on `WriteTransaction::open_table` and `Table::insert` of redb:
/// the write maps the key to the value within this transaction, replacing
/// any earlier value.
#[verifier::external_body]
fn txn_insert(txn: &mut redb::WriteTransaction, key: &str, value: &[u8]) -> (r: Result<
    (),
    EngineFailure,
>)
    ensures
        r is Ok ==> txn_view(*final(txn)) == txn_view(*old(txn)).insert(key@, value@),
{
    let mut table = match txn.open_table(redb::TableDefinition::<&str, &[u8]>::new("rireq")) {
        Ok(t) => t,
        Err(_) => return Err(EngineFailure),
    };
    let r = match table.insert(key, value) {
        Ok(_) => Ok(()),
        Err(_) => Err(EngineFailure),
    };
    r
}

/// Relies on `WriteTransaction::open_table` and `Table::remove` of redb:
/// the key is unmapped within this transaction; removing an absent key
/// changes nothing.
#[verifier::external_body]
fn txn_remove(txn: &mut redb::WriteTransaction, key: &str) -> (r: Result<(), EngineFailure>)
    ensures
        r is Ok ==> txn_view(*final(txn)) == txn_view(*old(txn)).remove(key@),
{
    let mut table = match txn.open_table(redb::TableDefinition::<&str, &[u8]>::new("rireq")) {
        Ok(t) => t,
        Err(_) => return Err(EngineFailure),
    };
    let r = match table.remove(key) {
        Ok(_) => Ok(()),
        Err(_) => Err(EngineFailure),
    };
    r
}

/// No key repeats in a scanned snapshot.
pub open spec fn entries_wf(s: Seq<(String, Vec<u8>)>) -> bool {
    forall|i: int, j: int| 0 <= i < j < s.len() ==> s[i].0@ != s[j].0@
}

/// The mapping a sequence of scanned entries stands for.
pub open spec fn entries_map(s: Seq<(String, Vec<u8>)>) -> Map<Seq<char>, Seq<u8>>
    decreases s.len(),
{
    if s.len() == 0 {
        Map::empty()
    } else {
        entries_map(s.drop_last()).insert(s.last().0@, s.last().1@)
    }
}

pub proof fn lemma_entries_map_props(s: Seq<(String, Vec<u8>)>)
    requires
        entries_wf(s),
    ensures
        entries_map(s).dom().finite(),
        entries_map(s).dom().len() == s.len(),
        forall|k: Seq<char>|
            entries_map(s).contains_key(k) <==> exists|i: int| 0 <= i < s.len() && s[i].0@ == k,
        forall|i: int|
            0 <= i < s.len() ==> entries_map(s).contains_key(#[trigger] s[i].0@) && entries_map(s)[
                s[i].0@
            ] == s[i].1@,
    decreases s.len(),
{
    if s.len() > 0 {
        let pre = s.drop_last();
        lemma_entries_map_props(pre);
        assert(!entries_map(pre).contains_key(s.last().0@));
        assert forall|i: int|
            0 <= i < s.len() implies entries_map(s).contains_key(#[trigger] s[i].0@)
            && entries_map(s)[s[i].0@] == s[i].1@ by {
            if i < s.len() - 1 {
                assert(pre[i] == s[i]);
                assert(s[i].0@ != s.last().0@);
            }
        }
        assert forall|k: Seq<char>|
            entries_map(s).contains_key(k) implies exists|i: int|
            0 <= i < s.len() && s[i].0@ == k by {
            if k == s.last().0@ {
                assert(s[s.len() - 1].0@ == k);
            } else {
                let i = choose|i: int| 0 <= i < pre.len() && pre[i].0@ == k;
                assert(s[i].0@ == k);
            }
        }
    }
}

/// What one recording does to the stored mapping: nothing for an ignorable
/// entry; otherwise the key's statistics are created from the entry or
/// merged with it, inside the same transaction that read them. The merge of
/// a value that does not decode is left undefined here; recording surfaces
/// `Corruption` instead of using it.
pub open spec fn record_model(m: Map<Seq<char>, Seq<u8>>, k: Seq<char>, d: CmdData) -> Map<
    Seq<char>,
    Seq<u8>,
> {
    if k.len() == 0 {
        m
    } else if m.contains_key(k) {
        match decode_spec(m[k]) {
            Some(existing) => m.insert(k, stats_bytes(merge_spec(existing, d))),
            None => m,
        }
    } else {
        m.insert(k, stats_bytes(d))
    }
}

/// Recording an ignorable entry (empty normalized key) leaves the stored
/// state unchanged.
pub proof fn lemma_record_ignorable_noop(m: Map<Seq<char>, Seq<u8>>, k: Seq<char>, d: CmdData)
    requires
        k.len() == 0,
    ensures
        record_model(m, k, d) == m,
{
}

/// Recording `a` and then `b` under one fresh key stores the merge of the
/// two: the counts add and the later execution time wins.
pub proof fn lemma_record_two_merges(
    m: Map<Seq<char>, Seq<u8>>,
    k: Seq<char>,
    d1: CmdData,
    d2: CmdData,
)
    requires
        k.len() > 0,
        !m.contains_key(k),
    ensures
        record_model(record_model(m, k, d1), k, d2) == m.insert(k, stats_bytes(merge_spec(d1, d2))),
{
    lemma_stats_round_trip(d1);
    assert(record_model(record_model(m, k, d1), k, d2) =~= m.insert(
        k,
        stats_bytes(merge_spec(d1, d2)),
    ));
}

/// Two raw command texts that normalize to one fresh key, each recorded
/// once, end stored with count 2 and the later of the two times.
pub proof fn lemma_record_twice_counts(
    m: Map<Seq<char>, Seq<u8>>,
    k: Seq<char>,
    t1: u64,
    t2: u64,
)
    requires
        k.len() > 0,
        !m.contains_key(k),
    ensures
        ({
            let m2 = record_model(
                record_model(m, k, CmdData { count: 1, last_exec_time: t1 }),
                k,
                CmdData { count: 1, last_exec_time: t2 },
            );
            decode_spec(m2[k]) == Some(
                CmdData {
                    count: 2,
                    last_exec_time: if t1 < t2 {
                        t2
                    } else {
                        t1
                    },
                },
            )
        }),
{
    let d1 = CmdData { count: 1, last_exec_time: t1 };
    let d2 = CmdData { count: 1, last_exec_time: t2 };
    lemma_record_two_merges(m, k, d1, d2);
    lemma_stats_round_trip(merge_spec(d1, d2));
}

/// Two raw command texts that normalize to the same fresh key, each
/// recorded once as a new entry, end stored under that key with count 2 and
/// the later of their two execution times.
pub proof fn lemma_record_same_key_texts(m: Map<Seq<char>, Seq<u8>>, a: CmdRecord, b: CmdRecord)
    requires
        key_spec(a) == key_spec(b),
        key_spec(a).len() > 0,
        a.cmd_data.count == 1,
        b.cmd_data.count == 1,
        !m.contains_key(key_spec(a)),
    ensures
        ({
            let m2 = record_model(record_model(m, key_spec(a), a.cmd_data), key_spec(b), b.cmd_data);
            decode_spec(m2[key_spec(a)]) == Some(
                CmdData {
                    count: 2,
                    last_exec_time: if a.cmd_data.last_exec_time < b.cmd_data.last_exec_time {
                        b.cmd_data.last_exec_time
                    } else {
                        a.cmd_data.last_exec_time
                    },
                },
            )
        }),
{
    lemma_record_twice_counts(m, key_spec(a), a.cmd_data.last_exec_time, b.cmd_data.last_exec_time);
}

/// A well-formed stored mapping: every value decodes and carries a count of
/// at least one.
pub open spec fn wf_map(m: Map<Seq<char>, Seq<u8>>) -> bool {
    forall|k: Seq<char>|
        m.contains_key(k) ==> match decode_spec(#[trigger] m[k]) {
            Some(d) => d.count >= 1,
            None => false,
        }
}

/// Recording an entry with a positive count keeps the store well formed,
/// and the key's last execution time never moves backwards.
pub proof fn lemma_record_preserves_wf(m: Map<Seq<char>, Seq<u8>>, k: Seq<char>, d: CmdData)
    requires
        wf_map(m),
        d.count >= 1,
    ensures
        wf_map(record_model(m, k, d)),
        m.contains_key(k) && record_model(m, k, d).contains_key(k) ==> match (
            decode_spec(m[k]),
            decode_spec(record_model(m, k, d)[k]),
        ) {
            (Some(before), Some(after)) => after.last_exec_time >= before.last_exec_time
                && after.count >= before.count,
            _ => false,
        },
{
    lemma_stats_round_trip(d);
    if k.len() > 0 && m.contains_key(k) {
        match decode_spec(m[k]) {
            Some(existing) => {
                lemma_stats_round_trip(merge_spec(existing, d));
            },
            None => {},
        }
    }
}

/// Records one entry inside an already-open write transaction: the atomic
/// read-modify-write at the heart of lost-update prevention. An ignorable
/// entry short-circuits to success before any storage call; a stored value
/// that does not decode is surfaced as `Corruption`, never merged over and
/// never silently left alone under an `Ok`, and leaves the pending contents
/// untouched.
pub fn record_in_txn(txn: &mut redb::WriteTransaction, rec: &CmdRecord) -> (r: Result<
    (),
    StoreError,
>)
    ensures
        r is Ok ==> txn_view(*final(txn)) == record_model(
            txn_view(*old(txn)),
            key_spec(*rec),
            rec.cmd_data,
        ),
        ignored_spec(*rec) ==> r is Ok,
        r is Ok ==> ignored_spec(*rec) || !txn_view(*old(txn)).contains_key(key_spec(*rec))
            || decode_spec(txn_view(*old(txn))[key_spec(*rec)]) is Some,
        r == Err::<(), StoreError>(StoreError::Corruption) ==> txn_view(*old(txn)).contains_key(
            key_spec(*rec),
        ) && decode_spec(txn_view(*old(txn))[key_spec(*rec)]) is None && txn_view(*final(txn))
            == txn_view(*old(txn)),
{
    if rec.is_ignored() {
        return Ok(());
    }
    let key = rec.key();
    let existing = match txn_get(txn, key) {
        Ok(v) => v,
        Err(_) => return Err(StoreError::StorageUnavailable),
    };
    let data: CmdData = match existing {
        Some(bytes) => match decode_stats(bytes.as_slice()) {
            Some(old_data) => old_data.merge(rec),
            None => return Err(StoreError::Corruption),
        },
        None => *rec.data(),
    };
    let encoded = encode_stats(&data);
    match txn_insert(txn, key, encoded.as_slice()) {
        Ok(()) => Ok(()),
        Err(_) => Err(StoreError::StorageUnavailable),
    }
}

impl Db {
    /// Records one command execution in its own atomic transaction: read
    /// the key's statistics, merge, write back, commit. An ignorable entry
    /// short-circuits to success and touches no storage; a stored value
    /// that does not decode is surfaced as `Corruption`; on any failure the
    /// store is left as it was.
    pub fn record(&mut self, rec: &CmdRecord) -> (r: Result<(), StoreError>)
        requires
            rec.cmd_data.count >= 1,
        ensures
            r is Ok ==> final(self).view_map() == record_model(
                old(self).view_map(),
                key_spec(*rec),
                rec.cmd_data,
            ),
            r is Err ==> final(self).view_map() == old(self).view_map(),
            ignored_spec(*rec) ==> r is Ok,
            r == Err::<(), StoreError>(StoreError::Corruption) ==> !ignored_spec(*rec) && old(
                self,
            ).view_map().contains_key(key_spec(*rec)) && decode_spec(
                old(self).view_map()[key_spec(*rec)],
            ) is None,
    {
        if rec.is_ignored() {
            return Ok(());
        }
        let mut txn = match self.begin_write() {
            Ok(t) => t,
            Err(_) => return Err(StoreError::StorageUnavailable),
        };
        match record_in_txn(&mut txn, rec) {
            Ok(()) => {},
            Err(e) => return Err(e),
        }
        match self.commit(txn) {
            Ok(()) => Ok(()),
            Err(_) => Err(StoreError::StorageUnavailable),
        }
    }
}

/// What a whole batch of recordings does to the stored mapping, applied in
/// order within one transaction.
pub open spec fn import_batch_model(
    m: Map<Seq<char>, Seq<u8>>,
    items: Seq<(Seq<char>, CmdData)>,
) -> Map<Seq<char>, Seq<u8>>
    decreases items.len(),
{
    if items.len() == 0 {
        m
    } else {
        record_model(
            import_batch_model(m, items.drop_last()),
            items.last().0,
            items.last().1,
        )
    }
}

/// The items a bulk line import stands for: one entry per raw line, count 1,
/// stamped with the oldest possible time.
pub open spec fn import_lines_items(lines: Seq<String>) -> Seq<(Seq<char>, CmdData)> {
    lines.map_values(
        |l: String| (crate::norm::trim_spec(l@), CmdData { count: 1, last_exec_time: 0 }),
    )
}

/// The items a structured import stands for: each row merged under its
/// normalized key with the statistics it carries.
pub open spec fn import_rows_items(rows: Seq<CmdRecord>) -> Seq<(Seq<char>, CmdData)> {
    rows.map_values(|r: CmdRecord| (key_spec(r), r.cmd_data))
}

/// The set of characters-of-keys named by a list of key strings.
pub open spec fn key_set(keys: Seq<String>) -> Set<Seq<char>> {
    Set::new(|k: Seq<char>| exists|i: int| 0 <= i < keys.len() && keys[i]@ == k)
}

impl Db {
    /// Applies one recording per raw line, all inside a single transaction:
    /// either every line is durably merged or none is. Each line is stamped
    /// with the oldest possible time. Returns how many lines were
    /// processed.
    pub fn import(&mut self, lines: &Vec<String>) -> (r: Result<usize, StoreError>)
        ensures
            r matches Ok(n) ==> n == lines@.len() && db_view(final(self).db) == import_batch_model(
                db_view(old(self).db),
                import_lines_items(lines@),
            ),
            r is Err ==> db_view(final(self).db) == db_view(old(self).db),
    {
        let ghost items = import_lines_items(lines@);
        let mut txn = match self.begin_write() {
            Ok(t) => t,
            Err(_) => return Err(StoreError::StorageUnavailable),
        };
        let n = lines.len();
        let mut i: usize = 0;
        while i < n
            invariant
                0 <= i <= n,
                n == lines@.len(),
                items == import_lines_items(lines@),
                txn_view(txn) == import_batch_model(db_view(old(self).db), items.subrange(0, i as int)),
            decreases n - i,
        {
            let rec = CmdRecord::new_epoch(lines[i].clone());
            match record_in_txn(&mut txn, &rec) {
                Ok(()) => {},
                Err(e) => return Err(e),
            }
            proof {
                assert(items.subrange(0, i + 1).drop_last() =~= items.subrange(0, i as int));
                assert(items.subrange(0, i + 1).last() == items[i as int]);
            }
            i = i + 1;
        }
        proof {
            assert(items.subrange(0, n as int) =~= items);
        }
        match self.commit(txn) {
            Ok(()) => Ok(n),
            Err(_) => Err(StoreError::StorageUnavailable),
        }
    }

    /// Applies one recording per structured row, all inside a single
    /// transaction: either every row is durably merged or none is. Rows may
    /// come in any order. Returns how many rows were processed.
    pub fn import_csv(&mut self, rows: &Vec<CmdRecord>) -> (r: Result<usize, StoreError>)
        requires
            forall|i: int| 0 <= i < rows@.len() ==> rows@[i].cmd_data.count >= 1,
        ensures
            r matches Ok(n) ==> n == rows@.len() && db_view(final(self).db) == import_batch_model(
                db_view(old(self).db),
                import_rows_items(rows@),
            ),
            r is Err ==> db_view(final(self).db) == db_view(old(self).db),
    {
        let ghost items = import_rows_items(rows@);
        let mut txn = match self.begin_write() {
            Ok(t) => t,
            Err(_) => return Err(StoreError::StorageUnavailable),
        };
        let n = rows.len();
        let mut i: usize = 0;
        while i < n
            invariant
                0 <= i <= n,
                n == rows@.len(),
                items == import_rows_items(rows@),
                txn_view(txn) == import_batch_model(db_view(old(self).db), items.subrange(0, i as int)),
            decreases n - i,
        {
            match record_in_txn(&mut txn, &rows[i]) {
                Ok(()) => {},
                Err(e) => return Err(e),
            }
            proof {
                assert(items.subrange(0, i + 1).drop_last() =~= items.subrange(0, i as int));
                assert(items.subrange(0, i + 1).last() == items[i as int]);
            }
            i = i + 1;
        }
        proof {
            assert(items.subrange(0, n as int) =~= items);
        }
        match self.commit(txn) {
            Ok(()) => Ok(n),
            Err(_) => Err(StoreError::StorageUnavailable),
        }
    }

    /// Deletes the given keys in one atomic transaction: exactly those keys
    /// leave the store, every other entry keeps its statistics.
    pub fn remove_keys(&mut self, keys: &Vec<String>) -> (r: Result<(), StoreError>)
        ensures
            r is Ok ==> db_view(final(self).db) == db_view(old(self).db).remove_keys(
                key_set(keys@),
            ),
            r is Err ==> db_view(final(self).db) == db_view(old(self).db),
    {
        let mut txn = match self.begin_write() {
            Ok(t) => t,
            Err(_) => return Err(StoreError::StorageUnavailable),
        };
        let n = keys.len();
        let mut i: usize = 0;
        while i < n
            invariant
                0 <= i <= n,
                n == keys@.len(),
                txn_view(txn) == db_view(old(self).db).remove_keys(
                    key_set(keys@.subrange(0, i as int)),
                ),
            decreases n - i,
        {
            match txn_remove(&mut txn, keys[i].as_str()) {
                Ok(()) => {},
                Err(_) => return Err(StoreError::StorageUnavailable),
            }
            proof {
                let before = key_set(keys@.subrange(0, i as int));
                let after = key_set(keys@.subrange(0, i + 1));
                assert forall|k: Seq<char>| after.contains(k) implies before.contains(k) || k
                    == keys@[i as int]@ by {
                    let j = choose|j: int|
                        0 <= j < i + 1 && (#[trigger] keys@.subrange(0, i + 1)[j])@ == k;
                    if j < i {
                        assert(keys@.subrange(0, i as int)[j]@ == k);
                    }
                }
                assert forall|k: Seq<char>| before.contains(k) implies after.contains(k) by {
                    let j = choose|j: int|
                        0 <= j < i && (#[trigger] keys@.subrange(0, i as int)[j])@ == k;
                    assert(keys@.subrange(0, i + 1)[j]@ == k);
                }
                assert(keys@.subrange(0, i + 1)[i as int]@ == keys@[i as int]@);
                assert(db_view(old(self).db).remove_keys(before).remove(keys@[i as int]@)
                    =~= db_view(old(self).db).remove_keys(after));
            }
            i = i + 1;
        }
        proof {
            assert(keys@.subrange(0, n as int) =~= keys@);
        }
        match self.commit(txn) {
            Ok(()) => Ok(()),
            Err(_) => Err(StoreError::StorageUnavailable),
        }
    }
}

/// Deleting a set of keys removes exactly those keys: a pruned key is gone,
/// and every key not named keeps exactly the statistics it had.
pub proof fn lemma_remove_keys_exact(m: Map<Seq<char>, Seq<u8>>, ks: Set<Seq<char>>)
    ensures
        forall|k: Seq<char>| ks.contains(k) ==> !m.remove_keys(ks).contains_key(k),
        forall|k: Seq<char>|
            !ks.contains(k) ==> m.remove_keys(ks).contains_key(k) == m.contains_key(k),
        forall|k: Seq<char>|
            !ks.contains(k) && m.contains_key(k) ==> m.remove_keys(ks)[k] == m[k],
{
}

/// Importing a batch of distinct, non-empty, already-normalized keys into an
/// empty store reproduces exactly those entries: re-importing an export
/// rebuilds the same set of commands with the same statistics.
pub proof fn lemma_import_into_empty(items: Seq<(Seq<char>, CmdData)>)
    requires
        forall|i: int| 0 <= i < items.len() ==> (#[trigger] items[i].0).len() > 0,
        forall|i: int, j: int| 0 <= i < j < items.len() ==> items[i].0 != items[j].0,
    ensures
        forall|k: Seq<char>|
            import_batch_model(Map::empty(), items).contains_key(k) <==> exists|i: int|
                0 <= i < items.len() && (#[trigger] items[i]).0 == k,
        forall|i: int|
            0 <= i < items.len() ==> decode_spec(
                import_batch_model(Map::empty(), items)[(#[trigger] items[i]).0],
            ) == Some(items[i].1),
    decreases items.len(),
{
    if items.len() > 0 {
        let pre = items.drop_last();
        lemma_import_into_empty(pre);
        let mp = import_batch_model(Map::empty(), pre);
        let last = items.last();
        assert(forall|i: int| 0 <= i < pre.len() ==> pre[i] == items[i]);
        assert(!mp.contains_key(last.0));
        lemma_stats_round_trip(last.1);
        let m = import_batch_model(Map::empty(), items);
        assert(m == mp.insert(last.0, stats_bytes(last.1)));
        assert forall|k: Seq<char>| m.contains_key(k) implies exists|i: int|
            0 <= i < items.len() && (#[trigger] items[i]).0 == k by {
            if k == last.0 {
                assert(items[items.len() - 1].0 == k);
            } else {
                let i = choose|i: int| 0 <= i < pre.len() && (#[trigger] pre[i]).0 == k;
                assert(items[i].0 == k);
            }
        }
        assert forall|i: int| 0 <= i < items.len() implies decode_spec(
            m[(#[trigger] items[i]).0],
        ) == Some(items[i].1) by {
            if i < items.len() - 1 {
                assert(items[i].0 != last.0);
                assert(m[items[i].0] == mp[items[i].0]);
            }
        }
    }
}

} // verus!