//! The synchronisation run.
//!
//! One run composes fetch, decompose and write: every decoded record's
//! two projections are upserted into the per-language collections, in
//! snapshot order.  Two consistency modes exist.  Batch-transactional:
//! any storage fault aborts the whole run with no partial commit.
//! Per-record: each record commits independently; a fault aborts the run
//! but keeps the records already committed.  No retry is performed here;
//! the external scheduler re-invokes the run, and because every write is
//! an idempotent upsert a later successful run converges the store.

use vstd::prelude::*;
use vstd::map::*;
use vstd::assert_sets_equal;

use crate::record::RawRow;
use crate::record::Record;
use crate::record::RecordV;
use crate::record::SyncError;
use crate::record::decode_snapshot;
use crate::record::decoded_records;
use crate::record::first_undecodable;
use crate::record::lemma_rows_model;
use crate::record::rows_decodable;
use crate::record::rows_model;
use crate::record::spec_fault_key;
use crate::record::spec_row_fault;
use crate::record::spec_decode_row;
use crate::record::spec_row_key;
use crate::store::Extracted;
use crate::store::RowV;
use crate::store::Store;
use crate::store::StoredRow;
use crate::store::extract_scalars;
use crate::store::spec_extract;

verus! {

/// Whether both of a record's projections allow scalar extraction, and
/// its write therefore succeeds.
pub open spec fn rec_writable(r: RecordV) -> bool {
    spec_extract(r.de) is Ok && spec_extract(r.en) is Ok
}

/// The offending payload field of an unwritable record: the first
/// malformed field of the "de" projection, else of the "en" projection.
pub open spec fn spec_rec_fault_field(r: RecordV) -> Seq<char> {
    if spec_extract(r.de) is Err {
        spec_extract(r.de)->Err_0
    } else {
        spec_extract(r.en)->Err_0
    }
}

/// The "de" row a record writes: its projection, the extracted scalars,
/// and the content hash, which is tracked on this language only.
pub open spec fn spec_de_row(r: RecordV) -> RowV {
    RowV { payload: r.de, scalars: spec_extract(r.de)->Ok_0, hash: Some(r.hash) }
}

/// The "en" row a record writes: its projection and the extracted
/// scalars; no hash is tracked here.
pub open spec fn spec_en_row(r: RecordV) -> RowV {
    RowV { payload: r.en, scalars: spec_extract(r.en)->Ok_0, hash: None }
}

/// The mathematical model of the store: one map per language.
#[verifier::ext_equal]
pub struct StoreModel {
    pub de: Map<Seq<char>, RowV>,
    pub en: Map<Seq<char>, RowV>,
}

/// The model of a store value.
pub open spec fn store_model(s: Store) -> StoreModel {
    StoreModel { de: s.de@, en: s.en@ }
}

/// The model of the empty store.
pub open spec fn empty_model() -> StoreModel {
    StoreModel { de: Map::empty(), en: Map::empty() }
}

/// The store after one record's write: both collections upserted under
/// the record key.
pub open spec fn apply_rec(m: StoreModel, r: RecordV) -> StoreModel {
    StoreModel { de: m.de.insert(r.key, spec_de_row(r)), en: m.en.insert(r.key, spec_en_row(r)) }
}

/// The store after a fully successful run over the records, in order.
pub open spec fn apply_all(m: StoreModel, recs: Seq<RecordV>) -> StoreModel
    decreases recs.len(),
{
    if recs.len() == 0 {
        m
    } else {
        apply_all(apply_rec(m, recs[0]), recs.drop_first())
    }
}

/// Whether every record of the run is writable.
pub open spec fn all_writable(recs: Seq<RecordV>) -> bool {
    forall|i: int| 0 <= i < recs.len() ==> rec_writable(#[trigger] recs[i])
}

/// The index of the first unwritable record (the length when all are
/// writable).
pub open spec fn first_unwritable(recs: Seq<RecordV>) -> int
    decreases recs.len(),
{
    if recs.len() == 0 {
        0
    } else if !rec_writable(recs[0]) {
        0
    } else {
        1 + first_unwritable(recs.drop_first())
    }
}

/// `first_unwritable` names the first record at fault: every earlier
/// record is writable, and the named one is not (unless all are).
pub proof fn lemma_first_unwritable(recs: Seq<RecordV>)
    ensures
        0 <= first_unwritable(recs) <= recs.len(),
        forall|i: int| 0 <= i < first_unwritable(recs) ==> rec_writable(#[trigger] recs[i]),
        first_unwritable(recs) < recs.len() ==> !rec_writable(recs[first_unwritable(recs)]),
        first_unwritable(recs) == recs.len() ==> all_writable(recs),
    decreases recs.len(),
{
    if recs.len() > 0 && rec_writable(recs[0]) {
        lemma_first_unwritable(recs.drop_first());
        let n = first_unwritable(recs.drop_first());
        assert(forall|i: int| 0 < i < 1 + n ==> recs[i] == recs.drop_first()[i - 1]);
        if 1 + n == recs.len() {
            assert forall|i: int| 0 <= i < recs.len() implies rec_writable(
                #[trigger] recs[i],
            ) by {
                if i > 0 {
                    assert(recs[i] == recs.drop_first()[i - 1]);
                }
            }
        }
    }
}

/// A run over concatenated batches is the second batch run after the
/// first.
pub proof fn lemma_apply_all_concat(m: StoreModel, a: Seq<RecordV>, b: Seq<RecordV>)
    ensures
        apply_all(m, a + b) == apply_all(apply_all(m, a), b),
    decreases a.len(),
{
    if a.len() == 0 {
        assert(a + b =~= b);
    } else {
        lemma_apply_all_concat(apply_rec(m, a[0]), a.drop_first(), b);
        assert((a + b).drop_first() =~= a.drop_first() + b);
        assert((a + b)[0] == a[0]);
    }
}

/// One further record extends a run by one write.
pub proof fn lemma_apply_all_snoc(m: StoreModel, recs: Seq<RecordV>, i: int)
    requires
        0 <= i < recs.len(),
    ensures
        apply_all(m, recs.take(i + 1)) == apply_rec(apply_all(m, recs.take(i)), recs[i]),
{
    lemma_apply_all_concat(m, recs.take(i), seq![recs[i]]);
    assert(recs.take(i + 1) =~= recs.take(i) + seq![recs[i]]);
    let m1 = apply_all(m, recs.take(i));
    let s = seq![recs[i]];
    assert(s.drop_first() =~= Seq::<RecordV>::empty());
    assert(s[0] == recs[i]);
    assert(apply_all(apply_rec(m1, recs[i]), Seq::<RecordV>::empty()) == apply_rec(m1, recs[i]));
    assert(apply_all(m1, s) == apply_all(apply_rec(m1, s[0]), s.drop_first()));
}

/// The models of a record list, in order.
pub open spec fn recs_view(recs: Seq<Record>) -> Seq<RecordV>
    decreases recs,
{
    if recs.len() == 0 {
        Seq::empty()
    } else {
        seq![recs[0]@] + recs_view(recs.drop_first())
    }
}

/// The model of a record list is recordwise the model of its records.
pub proof fn lemma_recs_view(recs: Seq<Record>)
    ensures
        recs_view(recs).len() == recs.len(),
        forall|i: int| 0 <= i < recs.len() ==> recs_view(recs)[i] == recs[i]@,
    decreases recs.len(),
{
    if recs.len() > 0 {
        lemma_recs_view(recs.drop_first());
        assert(recs_view(recs) == seq![recs[0]@] + recs_view(recs.drop_first()));
    }
}

/// The outcome of a fully successful run.
#[derive(Debug)]
pub struct RunReport {
    /// How many records the run wrote.
    pub records_processed: usize,
    /// How many records failed; a successful run has none.
    pub records_failed: usize,
}

impl Record {
    /// Check that this record's write would succeed: both projections
    /// allow scalar extraction.
    pub fn validate(&self) -> (r: Result<(), SyncError>)
        ensures
            match r {
                Ok(()) => rec_writable(self@),
                Err(e) => {
                    &&& !rec_writable(self@)
                    &&& e matches SyncError::Storage { key, field } && key@ == self@.key && field@
                        == spec_rec_fault_field(self@)
                },
            },
    {
        match extract_scalars(&self.de, &self.key) {
            Err(e) => {
                return Err(e);
            },
            Ok(_) => {},
        }
        match extract_scalars(&self.en, &self.key) {
            Err(e) => {
                return Err(e);
            },
            Ok(_) => {},
        }
        Ok(())
    }

    /// Write this record: both collections are upserted under the record
    /// key, the "de" row carrying the content hash.  Both sub-writes are
    /// checked before either is made, so a malformed projection leaves
    /// the store untouched.
    pub fn store(&self, target: &mut Store) -> (r: Result<(), SyncError>)
        requires
            old(target).wf(),
        ensures
            final(target).wf(),
            match r {
                Ok(()) => {
                    &&& rec_writable(self@)
                    &&& store_model(*final(target)) == apply_rec(store_model(*old(target)), self@)
                },
                Err(e) => {
                    &&& !rec_writable(self@)
                    &&& *final(target) == *old(target)
                    &&& e matches SyncError::Storage { key, field } && key@ == self@.key && field@
                        == spec_rec_fault_field(self@)
                },
            },
    {
        let de_scalars: Extracted = match extract_scalars(&self.de, &self.key) {
            Ok(x) => x,
            Err(e) => {
                return Err(e);
            },
        };
        let en_scalars: Extracted = match extract_scalars(&self.en, &self.key) {
            Ok(x) => x,
            Err(e) => {
                return Err(e);
            },
        };
        let de_row = StoredRow {
            payload: self.de.duplicate(),
            scalars: de_scalars,
            hash: Some(self.hash),
        };
        target.de.upsert(self.key.clone(), de_row);
        let en_row = StoredRow { payload: self.en.duplicate(), scalars: en_scalars, hash: None };
        target.en.upsert(self.key.clone(), en_row);
        Ok(())
    }
}

/// Run the write phase record by record, each record committing
/// independently: a storage fault stops the run but keeps every record
/// committed before it (fail-partial).
pub fn run_per_record(target: &mut Store, recs: &Vec<Record>) -> (r: Result<RunReport, SyncError>)
    requires
        old(target).wf(),
    ensures
        final(target).wf(),
        match r {
            Ok(rep) => {
                &&& all_writable(recs_view(recs@))
                &&& rep.records_processed == recs@.len()
                &&& rep.records_failed == 0
                &&& store_model(*final(target)) == apply_all(
                    store_model(*old(target)),
                    recs_view(recs@),
                )
            },
            Err(e) => {
                let rv = recs_view(recs@);
                let n = first_unwritable(rv);
                &&& !all_writable(rv)
                &&& store_model(*final(target)) == apply_all(store_model(*old(target)), rv.take(n))
                &&& e matches SyncError::Storage { key, field } && key@ == rv[n].key && field@
                    == spec_rec_fault_field(rv[n])
            },
        },
{
    let ghost rv = recs_view(recs@);
    let ghost m0 = store_model(*old(target));
    proof {
        lemma_recs_view(recs@);
        lemma_first_unwritable(rv);
        assert(rv.take(0) =~= Seq::<RecordV>::empty());
    }
    let mut i: usize = 0;
    while i < recs.len()
        invariant
            i <= recs@.len(),
            target.wf(),
            rv == recs_view(recs@),
            rv.len() == recs@.len(),
            forall|k: int| 0 <= k < rv.len() ==> rv[k] == recs@[k]@,
            0 <= first_unwritable(rv) <= rv.len(),
            forall|k: int| 0 <= k < first_unwritable(rv) ==> rec_writable(#[trigger] rv[k]),
            first_unwritable(rv) < rv.len() ==> !rec_writable(rv[first_unwritable(rv)]),
            m0 == store_model(*old(target)),
            forall|k: int| 0 <= k < i ==> rec_writable(#[trigger] rv[k]),
            store_model(*target) == apply_all(m0, rv.take(i as int)),
        decreases recs@.len() - i,
    {
        match recs[i].store(target) {
            Ok(()) => {
                proof {
                    lemma_apply_all_snoc(m0, rv, i as int);
                }
            },
            Err(e) => {
                proof {
                    let n = first_unwritable(rv);
                    assert(!rec_writable(rv[i as int]));
                    if n < i as int {
                        assert(rec_writable(rv[n]));
                        assert(!rec_writable(rv[n]));
                        assert(false);
                    }
                    if n > i as int {
                        assert(rec_writable(rv[i as int]));
                        assert(false);
                    }
                    assert(n == i as int);
                }
                return Err(e);
            },
        }
        i += 1;
    }
    proof {
        assert(rv.take(rv.len() as int) =~= rv);
    }
    Ok(RunReport { records_processed: recs.len(), records_failed: 0 })
}

/// Run the write phase as one transaction: every record is checked
/// before anything is written, so a storage fault aborts the whole run
/// with no partial commit (fail-fast, all-or-nothing).
pub fn run_transactional(target: &mut Store, recs: &Vec<Record>) -> (r: Result<
    RunReport,
    SyncError,
>)
    requires
        old(target).wf(),
    ensures
        final(target).wf(),
        match r {
            Ok(rep) => {
                &&& all_writable(recs_view(recs@))
                &&& rep.records_processed == recs@.len()
                &&& rep.records_failed == 0
                &&& store_model(*final(target)) == apply_all(
                    store_model(*old(target)),
                    recs_view(recs@),
                )
            },
            Err(e) => {
                let rv = recs_view(recs@);
                let n = first_unwritable(rv);
                &&& !all_writable(rv)
                &&& *final(target) == *old(target)
                &&& e matches SyncError::Storage { key, field } && key@ == rv[n].key && field@
                    == spec_rec_fault_field(rv[n])
            },
        },
{
    let ghost rv = recs_view(recs@);
    let ghost m0 = store_model(*old(target));
    proof {
        lemma_recs_view(recs@);
        lemma_first_unwritable(rv);
        assert(rv.take(0) =~= Seq::<RecordV>::empty());
    }
    let mut i: usize = 0;
    while i < recs.len()
        invariant
            i <= recs@.len(),
            rv == recs_view(recs@),
            rv.len() == recs@.len(),
            forall|k: int| 0 <= k < rv.len() ==> rv[k] == recs@[k]@,
            0 <= first_unwritable(rv) <= rv.len(),
            forall|k: int| 0 <= k < first_unwritable(rv) ==> rec_writable(#[trigger] rv[k]),
            first_unwritable(rv) < rv.len() ==> !rec_writable(rv[first_unwritable(rv)]),
            forall|k: int| 0 <= k < i ==> rec_writable(#[trigger] rv[k]),
            old(target).wf(),
            *target == *old(target),
        decreases recs@.len() - i,
    {
        match recs[i].validate() {
            Ok(()) => {},
            Err(e) => {
                proof {
                    let n = first_unwritable(rv);
                    if n < i as int {
                        assert(rec_writable(rv[n]));
                        assert(!rec_writable(rv[n]));
                        assert(false);
                    }
                    if n > i as int {
                        assert(rec_writable(rv[i as int]));
                        assert(false);
                    }
                    assert(n == i as int);
                }
                return Err(e);
            },
        }
        i += 1;
    }
    let mut i: usize = 0;
    while i < recs.len()
        invariant
            i <= recs@.len(),
            target.wf(),
            rv == recs_view(recs@),
            rv.len() == recs@.len(),
            forall|k: int| 0 <= k < rv.len() ==> rv[k] == recs@[k]@,
            all_writable(rv),
            m0 == store_model(*old(target)),
            store_model(*target) == apply_all(m0, rv.take(i as int)),
        decreases recs@.len() - i,
    {
        match recs[i].store(target) {
            Ok(()) => {
                proof {
                    lemma_apply_all_snoc(m0, rv, i as int);
                }
            },
            Err(e) => {
                proof {
                    assert(rec_writable(rv[i as int]));
                    assert(false);
                }
                return Err(e);
            },
        }
        i += 1;
    }
    proof {
        assert(rv.take(rv.len() as int) =~= rv);
    }
    Ok(RunReport { records_processed: recs.len(), records_failed: 0 })
}

/// Whether some record of the run carries the key `k`.
pub open spec fn has_rec_key(recs: Seq<RecordV>, k: Seq<char>) -> bool {
    exists|i: int| 0 <= i < recs.len() && recs[i].key == k
}

/// The last record of the run carrying the key `k` (meaningful only when
/// one exists).
pub open spec fn last_rec(recs: Seq<RecordV>, k: Seq<char>) -> RecordV
    decreases recs.len(),
{
    if recs.len() == 0 {
        RecordV { key: k, hash: 0, de: crate::value::Val::Null, en: crate::value::Val::Null }
    } else if has_rec_key(recs.drop_first(), k) {
        last_rec(recs.drop_first(), k)
    } else {
        recs[0]
    }
}

/// What a run leaves at each key: a key some record carries holds the
/// rows of the last such record; every other key is untouched.
pub proof fn lemma_apply_all_lookup(m: StoreModel, recs: Seq<RecordV>, k: Seq<char>)
    ensures
        apply_all(m, recs).de.contains_key(k) == (m.de.contains_key(k) || has_rec_key(recs, k)),
        apply_all(m, recs).en.contains_key(k) == (m.en.contains_key(k) || has_rec_key(recs, k)),
        has_rec_key(recs, k) ==> apply_all(m, recs).de[k] == spec_de_row(last_rec(recs, k))
            && apply_all(m, recs).en[k] == spec_en_row(last_rec(recs, k)),
        !has_rec_key(recs, k) && m.de.contains_key(k) ==> apply_all(m, recs).de[k] == m.de[k],
        !has_rec_key(recs, k) && m.en.contains_key(k) ==> apply_all(m, recs).en[k] == m.en[k],
    decreases recs.len(),
{
    if recs.len() > 0 {
        let m1 = apply_rec(m, recs[0]);
        lemma_apply_all_lookup(m1, recs.drop_first(), k);
        assert(has_rec_key(recs, k) == (recs[0].key == k || has_rec_key(
            recs.drop_first(),
            k,
        ))) by {
            if has_rec_key(recs, k) && recs[0].key != k {
                let i = choose|i: int| 0 <= i < recs.len() && recs[i].key == k;
                assert(recs.drop_first()[i - 1].key == k);
            }
            if has_rec_key(recs.drop_first(), k) {
                let i = choose|i: int|
                    0 <= i < recs.drop_first().len() && recs.drop_first()[i].key == k;
                assert(recs[i + 1].key == k);
            }
        }
    }
}

/// Idempotent re-synchronisation: running an unchanged snapshot's records
/// a second time leaves the store exactly as the first run left it.
pub proof fn lemma_rerun_idempotent(m: StoreModel, recs: Seq<RecordV>)
    ensures
        apply_all(apply_all(m, recs), recs) == apply_all(m, recs),
{
    let once = apply_all(m, recs);
    let twice = apply_all(once, recs);
    assert_maps_equal!(twice.de, once.de, k => {
        lemma_apply_all_lookup(m, recs, k);
        lemma_apply_all_lookup(once, recs, k);
    });
    assert_maps_equal!(twice.en, once.en, k => {
        lemma_apply_all_lookup(m, recs, k);
        lemma_apply_all_lookup(once, recs, k);
    });
    assert(twice =~= once);
}

/// The keys that a run's records carry.
pub open spec fn rec_key_set(recs: Seq<RecordV>) -> Set<Seq<char>> {
    Set::new(|k: Seq<char>| has_rec_key(recs, k))
}

/// Key-set consistency: a fully successful run leaves both collections
/// keyed by the store's previous keys together with the records' keys; in
/// particular both collections hold the same key set whenever they did
/// before.
pub proof fn lemma_key_set_consistency(m: StoreModel, recs: Seq<RecordV>)
    ensures
        apply_all(m, recs).de.dom() == m.de.dom().union(rec_key_set(recs)),
        apply_all(m, recs).en.dom() == m.en.dom().union(rec_key_set(recs)),
        m.de.dom() == m.en.dom() ==> apply_all(m, recs).de.dom() == apply_all(m, recs).en.dom(),
{
    assert_sets_equal!(apply_all(m, recs).de.dom(), m.de.dom().union(rec_key_set(recs)), k => {
        lemma_apply_all_lookup(m, recs, k);
    });
    assert_sets_equal!(apply_all(m, recs).en.dom(), m.en.dom().union(rec_key_set(recs)), k => {
        lemma_apply_all_lookup(m, recs, k);
    });
}

/// Key-set consistency from an empty store: after a fully successful run
/// the key sets of both collections equal the snapshot's record keys.
pub proof fn lemma_key_sets_from_empty(recs: Seq<RecordV>)
    ensures
        apply_all(empty_model(), recs).de.dom() == rec_key_set(recs),
        apply_all(empty_model(), recs).en.dom() == rec_key_set(recs),
{
    lemma_key_set_consistency(empty_model(), recs);
    assert(Map::<Seq<char>, RowV>::empty().dom().union(rec_key_set(recs)) =~= rec_key_set(recs));
}

/// The ids carried by a snapshot's rows.
pub open spec fn snapshot_ids(rows: Seq<Seq<(Seq<char>, crate::value::Val)>>) -> Set<Seq<char>> {
    Set::new(|k: Seq<char>| exists|i: int| 0 <= i < rows.len() && spec_row_key(#[trigger] rows[i]) == k)
}

/// Key-set consistency against the snapshot: a fully successful run from
/// an empty store leaves the key set of the "de" collection, the key set
/// of the "en" collection, and the id set of the fetched snapshot all
/// equal.
pub proof fn lemma_key_sets_equal_snapshot_ids(rows: Seq<Seq<(Seq<char>, crate::value::Val)>>)
    ensures
        apply_all(empty_model(), decoded_records(rows)).de.dom() == snapshot_ids(rows),
        apply_all(empty_model(), decoded_records(rows)).en.dom() == snapshot_ids(rows),
{
    let recs = decoded_records(rows);
    lemma_key_sets_from_empty(recs);
    assert_sets_equal!(rec_key_set(recs), snapshot_ids(rows), k => {
        if has_rec_key(recs, k) {
            let i = choose|i: int| 0 <= i < recs.len() && recs[i].key == k;
            assert(recs[i] == spec_decode_row(rows[i]));
            assert(spec_row_key(rows[i]) == k);
        }
        if snapshot_ids(rows).contains(k) {
            let i = choose|i: int| 0 <= i < rows.len() && spec_row_key(#[trigger] rows[i]) == k;
            assert(recs[i] == spec_decode_row(rows[i]));
            assert(recs[i].key == k);
        }
    });
}

/// How a run commits its writes.
#[derive(Clone, Copy, PartialEq, Eq, Structural, Debug)]
pub enum ConsistencyMode {
    /// All writes of the run commit together or not at all.
    Transactional,
    /// Each record commits independently.
    PerRecord,
}

/// Synchronise the store with one fetched snapshot: decode every row,
/// then write every record's two projections in snapshot order, under
/// the chosen consistency mode.  A decode fault aborts the run before
/// anything is written.
pub fn sync_snapshot(target: &mut Store, rows: &Vec<RawRow>, mode: ConsistencyMode) -> (r: Result<
    RunReport,
    SyncError,
>)
    requires
        old(target).wf(),
    ensures
        final(target).wf(),
        ({
            let ms = rows_model(rows@);
            let rv = decoded_records(ms);
            if !rows_decodable(ms) {
                let n = first_undecodable(ms);
                &&& r is Err
                &&& *final(target) == *old(target)
                &&& r->Err_0 matches SyncError::Decode { fault, key } && Some(fault)
                    == spec_row_fault(ms[n]) && key@ == spec_fault_key(ms[n])
            } else if all_writable(rv) {
                &&& r is Ok
                &&& r->Ok_0.records_processed == rows@.len()
                &&& r->Ok_0.records_failed == 0
                &&& store_model(*final(target)) == apply_all(store_model(*old(target)), rv)
            } else {
                let n = first_unwritable(rv);
                &&& r is Err
                &&& (mode == ConsistencyMode::Transactional ==> *final(target) == *old(target))
                &&& (mode == ConsistencyMode::PerRecord ==> store_model(*final(target))
                    == apply_all(store_model(*old(target)), rv.take(n)))
                &&& r->Err_0 matches SyncError::Storage { key, field } && key@ == rv[n].key
                    && field@ == spec_rec_fault_field(rv[n])
            }
        }),
{
    let recs: Vec<Record> = match decode_snapshot(rows) {
        Ok(rs) => rs,
        Err(e) => {
            return Err(e);
        },
    };
    proof {
        lemma_recs_view(recs@);
        lemma_rows_model(rows@);
        assert(recs_view(recs@) =~= decoded_records(rows_model(rows@)));
    }
    match mode {
        ConsistencyMode::Transactional => run_transactional(target, &recs),
        ConsistencyMode::PerRecord => run_per_record(target, &recs),
    }
}

} // verus!

