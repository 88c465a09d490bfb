//! The persistent store surface.
//!
//! Two logical collections, one per language, each row keyed by the
//! record key and holding the projected payload, a set of directly
//! queryable scalar fields extracted from the payload, and (on the "de"
//! row only) the upstream content hash.  A write is an upsert: insert a
//! new row, or overwrite every non-key column of the existing row.

use vstd::prelude::*;

use crate::decompose::dict_find;
use crate::decompose::dict_get;
use crate::decompose::dict_has;
use crate::record::SyncError;
use crate::value::RawValue;
use crate::value::Val;
use crate::value::entries_view;

verus! {

/// The directly queryable scalar fields of a projection.  A field absent
/// from the payload is absent here; a present field of the wrong shape is
/// a storage error, never a silent default.
#[derive(PartialEq, Eq, Debug)]
pub struct Extracted {
    pub name: Option<String>,
    pub tumonline_room_nr: Option<i64>,
    pub type_: Option<String>,
    pub type_common_name: Option<String>,
    /// Latitude, as the numeric payload value (integer or decimal text).
    pub lat: Option<RawValue>,
    /// Longitude, as the numeric payload value (integer or decimal text).
    pub lon: Option<RawValue>,
}

/// The mathematical model of [`Extracted`].
#[verifier::ext_equal]
pub struct ExtractedV {
    pub name: Option<Seq<char>>,
    pub tumonline_room_nr: Option<int>,
    pub type_: Option<Seq<char>>,
    pub type_common_name: Option<Seq<char>>,
    pub lat: Option<Val>,
    pub lon: Option<Val>,
}

impl View for Extracted {
    type V = ExtractedV;

    open spec fn view(&self) -> ExtractedV {
        ExtractedV {
            name: match self.name {
                Some(s) => Some(s@),
                None => None,
            },
            tumonline_room_nr: match self.tumonline_room_nr {
                Some(n) => Some(n as int),
                None => None,
            },
            type_: match self.type_ {
                Some(s) => Some(s@),
                None => None,
            },
            type_common_name: match self.type_common_name {
                Some(s) => Some(s@),
                None => None,
            },
            lat: match self.lat {
                Some(v) => Some(v@),
                None => None,
            },
            lon: match self.lon {
                Some(v) => Some(v@),
                None => None,
            },
        }
    }
}

/// One persisted row: the projected payload, its extracted scalars, and,
/// where tracked, the upstream content hash.
#[derive(PartialEq, Eq, Debug)]
pub struct StoredRow {
    pub payload: RawValue,
    pub scalars: Extracted,
    pub hash: Option<i64>,
}

/// The mathematical model of a [`StoredRow`].
#[verifier::ext_equal]
pub struct RowV {
    pub payload: Val,
    pub scalars: ExtractedV,
    pub hash: Option<int>,
}

impl View for StoredRow {
    type V = RowV;

    open spec fn view(&self) -> RowV {
        RowV {
            payload: self.payload@,
            scalars: self.scalars@,
            hash: match self.hash {
                Some(h) => Some(h as int),
                None => None,
            },
        }
    }
}

/// The entries a payload offers for extraction: those of a mapping,
/// nothing otherwise.
pub open spec fn payload_entries(payload: Val) -> Seq<(Seq<char>, Val)> {
    if payload is Dict {
        payload->Dict_0
    } else {
        Seq::empty()
    }
}

/// A text field of the payload: absent, present as text, or malformed.
pub open spec fn spec_text_field(es: Seq<(Seq<char>, Val)>, k: Seq<char>) -> Result<
    Option<Seq<char>>,
    Seq<char>,
> {
    if !dict_has(es, k) {
        Ok(None)
    } else if dict_get(es, k) is Text {
        Ok(Some(dict_get(es, k)->Text_0))
    } else {
        Err(k)
    }
}

/// An integer field of the payload: absent, present as integer, or
/// malformed.
pub open spec fn spec_int_field(es: Seq<(Seq<char>, Val)>, k: Seq<char>) -> Result<
    Option<int>,
    Seq<char>,
> {
    if !dict_has(es, k) {
        Ok(None)
    } else if dict_get(es, k) is Int {
        Ok(Some(dict_get(es, k)->Int_0 as int))
    } else {
        Err(k)
    }
}

/// A coordinate field of the payload: absent, present as a number
/// (integer or decimal text), or malformed.
pub open spec fn spec_coord_field(es: Seq<(Seq<char>, Val)>, k: Seq<char>) -> Result<
    Option<Val>,
    Seq<char>,
> {
    if !dict_has(es, k) {
        Ok(None)
    } else if dict_get(es, k) is Int || dict_get(es, k) is Num {
        Ok(Some(dict_get(es, k)))
    } else {
        Err(k)
    }
}

/// Extraction of the queryable scalars from a projected payload; on a
/// malformed field, the name of the first offending field, in the fixed
/// order name, tumonline_room_nr, type, type_common_name, lat, lon.
pub open spec fn spec_extract(payload: Val) -> Result<ExtractedV, Seq<char>> {
    let es = payload_entries(payload);
    if spec_text_field(es, "name"@) is Err {
        Err("name"@)
    } else if spec_int_field(es, "tumonline_room_nr"@) is Err {
        Err("tumonline_room_nr"@)
    } else if spec_text_field(es, "type"@) is Err {
        Err("type"@)
    } else if spec_text_field(es, "type_common_name"@) is Err {
        Err("type_common_name"@)
    } else if spec_coord_field(es, "lat"@) is Err {
        Err("lat"@)
    } else if spec_coord_field(es, "lon"@) is Err {
        Err("lon"@)
    } else {
        Ok(
            ExtractedV {
                name: spec_text_field(es, "name"@)->Ok_0,
                tumonline_room_nr: spec_int_field(es, "tumonline_room_nr"@)->Ok_0,
                type_: spec_text_field(es, "type"@)->Ok_0,
                type_common_name: spec_text_field(es, "type_common_name"@)->Ok_0,
                lat: spec_coord_field(es, "lat"@)->Ok_0,
                lon: spec_coord_field(es, "lon"@)->Ok_0,
            },
        )
    }
}

/// Extract the queryable scalars from a projected payload; `key` names
/// the record on whose behalf the write runs, for the error.
pub fn extract_scalars(payload: &RawValue, key: &String) -> (r: Result<Extracted, SyncError>)
    ensures
        match r {
            Ok(ex) => spec_extract(payload@) == Ok::<ExtractedV, Seq<char>>(ex@),
            Err(e) => {
                &&& spec_extract(payload@) is Err
                &&& e matches SyncError::Storage { key: k, field } && k@ == key@ && field@
                    == spec_extract(payload@)->Err_0
            },
        },
{
    match payload {
        RawValue::Dict(entries) => {
            let name: Option<String> = match dict_find(entries, "name") {
                None => None,
                Some(j) => match &entries[j].1 {
                    RawValue::Text(s) => Some(s.clone()),
                    _ => {
                        return Err(SyncError::Storage {
                            key: key.clone(),
                            field: "name".to_owned(),
                        });
                    },
                },
            };
            let tumonline_room_nr: Option<i64> = match dict_find(entries, "tumonline_room_nr") {
                None => None,
                Some(j) => match &entries[j].1 {
                    RawValue::Int(n) => Some(*n),
                    _ => {
                        return Err(SyncError::Storage {
                            key: key.clone(),
                            field: "tumonline_room_nr".to_owned(),
                        });
                    },
                },
            };
            let type_: Option<String> = match dict_find(entries, "type") {
                None => None,
                Some(j) => match &entries[j].1 {
                    RawValue::Text(s) => Some(s.clone()),
                    _ => {
                        return Err(SyncError::Storage {
                            key: key.clone(),
                            field: "type".to_owned(),
                        });
                    },
                },
            };
            let type_common_name: Option<String> = match dict_find(entries, "type_common_name") {
                None => None,
                Some(j) => match &entries[j].1 {
                    RawValue::Text(s) => Some(s.clone()),
                    _ => {
                        return Err(SyncError::Storage {
                            key: key.clone(),
                            field: "type_common_name".to_owned(),
                        });
                    },
                },
            };
            let lat: Option<RawValue> = match dict_find(entries, "lat") {
                None => None,
                Some(j) => match &entries[j].1 {
                    RawValue::Int(n) => Some(RawValue::Int(*n)),
                    RawValue::Num(s) => Some(RawValue::Num(s.clone())),
                    _ => {
                        return Err(SyncError::Storage {
                            key: key.clone(),
                            field: "lat".to_owned(),
                        });
                    },
                },
            };
            let lon: Option<RawValue> = match dict_find(entries, "lon") {
                None => None,
                Some(j) => match &entries[j].1 {
                    RawValue::Int(n) => Some(RawValue::Int(*n)),
                    RawValue::Num(s) => Some(RawValue::Num(s.clone())),
                    _ => {
                        return Err(SyncError::Storage {
                            key: key.clone(),
                            field: "lon".to_owned(),
                        });
                    },
                },
            };
            Ok(Extracted { name, tumonline_room_nr, type_, type_common_name, lat, lon })
        },
        _ => {
            Ok(
                Extracted {
                    name: None,
                    tumonline_room_nr: None,
                    type_: None,
                    type_common_name: None,
                    lat: None,
                    lon: None,
                },
            )
        },
    }
}

/// The model of a keyed row list: later bindings win (rows with unique
/// keys make the order irrelevant).
pub open spec fn map_of(rows: Seq<(String, StoredRow)>) -> Map<Seq<char>, RowV>
    decreases rows.len(),
{
    if rows.len() == 0 {
        Map::empty()
    } else {
        map_of(rows.drop_last()).insert(rows.last().0@, rows.last().1@)
    }
}

/// No two rows share a key.
pub open spec fn unique_keys(rows: Seq<(String, StoredRow)>) -> bool {
    forall|i: int, j: int| 0 <= i < j < rows.len() ==> rows[i].0@ != rows[j].0@
}

/// A key is in the model exactly when some row binds it.
pub proof fn lemma_map_of_contains(rows: Seq<(String, StoredRow)>, k: Seq<char>)
    ensures
        map_of(rows).contains_key(k) <==> exists|i: int| 0 <= i < rows.len() && rows[i].0@ == k,
    decreases rows.len(),
{
    if rows.len() > 0 {
        lemma_map_of_contains(rows.drop_last(), k);
        if map_of(rows).contains_key(k) && rows.last().0@ != k {
            let i = choose|i: int| 0 <= i < rows.drop_last().len() && rows.drop_last()[i].0@ == k;
            assert(rows[i].0@ == k);
        }
        if exists|i: int| 0 <= i < rows.len() && rows[i].0@ == k {
            let i = choose|i: int| 0 <= i < rows.len() && rows[i].0@ == k;
            if i < rows.len() - 1 {
                assert(rows.drop_last()[i].0@ == k);
            }
        }
    }
}

/// The model is finite, with one key per row.
pub proof fn lemma_map_of_dom_len(rows: Seq<(String, StoredRow)>)
    requires
        unique_keys(rows),
    ensures
        map_of(rows).dom().finite(),
        map_of(rows).dom().len() == rows.len(),
    decreases rows.len(),
{
    if rows.len() == 0 {
        assert(map_of(rows).dom() =~= Set::<Seq<char>>::empty());
    } else {
        lemma_map_of_dom_len(rows.drop_last());
        lemma_map_of_contains(rows.drop_last(), rows.last().0@);
        assert(!map_of(rows.drop_last()).contains_key(rows.last().0@)) by {
            if exists|i: int|
                0 <= i < rows.drop_last().len() && rows.drop_last()[i].0@ == rows.last().0@ {
                let i = choose|i: int|
                    0 <= i < rows.drop_last().len() && rows.drop_last()[i].0@ == rows.last().0@;
                assert(rows[i].0@ == rows[rows.len() - 1].0@);
            }
        }
        assert(map_of(rows).dom() =~= map_of(rows.drop_last()).dom().insert(rows.last().0@));
    }
}

/// Under unique keys, the model maps each row's key to that row.
pub proof fn lemma_map_of_index(rows: Seq<(String, StoredRow)>, j: int)
    requires
        unique_keys(rows),
        0 <= j < rows.len(),
    ensures
        map_of(rows).contains_key(rows[j].0@),
        map_of(rows)[rows[j].0@] == rows[j].1@,
    decreases rows.len(),
{
    if j < rows.len() - 1 {
        lemma_map_of_index(rows.drop_last(), j);
        assert(rows.drop_last()[j] == rows[j]);
        assert(rows[j].0@ != rows.last().0@);
    }
}

/// Replacing the row that binds a key updates the model at that key.
pub proof fn lemma_map_of_update(rows: Seq<(String, StoredRow)>, j: int, entry: (String, StoredRow))
    requires
        unique_keys(rows),
        0 <= j < rows.len(),
        rows[j].0@ == entry.0@,
    ensures
        map_of(rows.update(j, entry)) == map_of(rows).insert(entry.0@, entry.1@),
    decreases rows.len(),
{
    let rs = rows.update(j, entry);
    if j == rows.len() - 1 {
        assert(rs.drop_last() =~= rows.drop_last());
        assert(rs.last() == entry);
        assert(map_of(rows.drop_last()).insert(rows.last().0@, rows.last().1@).insert(
            entry.0@,
            entry.1@,
        ) =~= map_of(rows.drop_last()).insert(entry.0@, entry.1@));
    } else {
        assert(rows.drop_last()[j] == rows[j]);
        lemma_map_of_update(rows.drop_last(), j, entry);
        assert(rs.drop_last() =~= rows.drop_last().update(j, entry));
        assert(rs.last() == rows.last());
        assert(rows[j].0@ != rows.last().0@);
        assert(map_of(rows.drop_last()).insert(entry.0@, entry.1@).insert(
            rows.last().0@,
            rows.last().1@,
        ) =~= map_of(rows.drop_last()).insert(rows.last().0@, rows.last().1@).insert(
            entry.0@,
            entry.1@,
        ));
    }
}

/// One per-language collection of the store: rows keyed by record key.
pub struct Collection {
    rows: Vec<(String, StoredRow)>,
}

impl View for Collection {
    type V = Map<Seq<char>, RowV>;

    closed spec fn view(&self) -> Map<Seq<char>, RowV> {
        map_of(self.rows@)
    }
}

impl Collection {
    /// The collection's rows have pairwise distinct keys.
    pub closed spec fn wf(&self) -> bool {
        unique_keys(self.rows@)
    }

    /// An empty collection.
    pub fn new() -> (c: Collection)
        ensures
            c.wf(),
            c@ == Map::<Seq<char>, RowV>::empty(),
    {
        Collection { rows: Vec::new() }
    }

    /// The row that binds `key`, if any.
    pub fn get(&self, key: &str) -> (r: Option<&StoredRow>)
        requires
            self.wf(),
        ensures
            match r {
                Some(row) => self@.contains_key(key@) && row@ == self@[key@],
                None => !self@.contains_key(key@),
            },
    {
        proof {
            lemma_map_of_contains(self.rows@, key@);
        }
        let kk: String = key.to_owned();
        let mut j: usize = 0;
        while j < self.rows.len()
            invariant
                j <= self.rows@.len(),
                kk@ == key@,
                self.wf(),
                forall|i: int| 0 <= i < j ==> self.rows@[i].0@ != key@,
        decreases self.rows@.len() - j,
        {
            if self.rows[j].0 == kk {
                proof {
                    lemma_map_of_index(self.rows@, j as int);
                }
                return Some(&self.rows[j].1);
            }
            j += 1;
        }
        None
    }

    /// Whether a row binds `key`.
    pub fn contains_key(&self, key: &str) -> (r: bool)
        requires
            self.wf(),
        ensures
            r == self@.contains_key(key@),
    {
        self.get(key).is_some()
    }

    /// How many rows the collection holds.
    pub fn len(&self) -> (n: usize)
        requires
            self.wf(),
        ensures
            n == self@.dom().len(),
    {
        proof {
            lemma_map_of_dom_len(self.rows@);
        }
        self.rows.len()
    }

    /// The keys of all rows, in insertion order: exactly the collection's
    /// key set, each key once.
    pub fn keys(&self) -> (r: Vec<String>)
        requires
            self.wf(),
        ensures
            r@.len() == self@.dom().len(),
            forall|i: int| 0 <= i < r@.len() ==> self@.contains_key(#[trigger] r@[i]@),
            forall|i: int, j: int| 0 <= i < j < r@.len() ==> r@[i]@ != r@[j]@,
            forall|k: Seq<char>| self@.contains_key(k) ==> exists|i: int|
                0 <= i < r@.len() && #[trigger] r@[i]@ == k,
    {
        proof {
            lemma_map_of_dom_len(self.rows@);
        }
        let mut out: Vec<String> = Vec::new();
        let mut j: usize = 0;
        while j < self.rows.len()
            invariant
                j <= self.rows@.len(),
                self.wf(),
                out@.len() == j,
                forall|i: int| 0 <= i < j ==> #[trigger] out@[i]@ == self.rows@[i].0@,
            decreases self.rows@.len() - j,
        {
            out.push(self.rows[j].0.clone());
            j += 1;
        }
        proof {
            assert forall|i: int| 0 <= i < out@.len() implies self@.contains_key(
                #[trigger] out@[i]@,
            ) by {
                lemma_map_of_index(self.rows@, i);
            }
            assert forall|k: Seq<char>| self@.contains_key(k) implies exists|i: int|
                0 <= i < out@.len() && #[trigger] out@[i]@ == k by {
                lemma_map_of_contains(self.rows@, k);
                let i = choose|i: int| 0 <= i < self.rows@.len() && self.rows@[i].0@ == k;
                assert(out@[i]@ == k);
            }
        }
        out
    }

    /// Upsert: insert a row under a new key, or overwrite every non-key
    /// column of the row already bound to it; never visible as a delete
    /// followed by an insert.
    pub fn upsert(&mut self, key: String, row: StoredRow)
        requires
            old(self).wf(),
        ensures
            final(self).wf(),
            final(self)@ == old(self)@.insert(key@, row@),
    {
        let ghost rows0 = self.rows@;
        let mut j: usize = 0;
        while j < self.rows.len()
            invariant
                j <= self.rows@.len(),
                self.rows@ == rows0,
                old(self).rows@ == rows0,
                unique_keys(rows0),
                forall|i: int| 0 <= i < j ==> rows0[i].0@ != key@,
            decreases self.rows@.len() - j,
        {
            if self.rows[j].0 == key {
                proof {
                    lemma_map_of_update(rows0, j as int, (key, row));
                }
                self.rows.set(j, (key, row));
                proof {
                    assert forall|a: int, b: int|
                        0 <= a < b < self.rows@.len() implies self.rows@[a].0@
                        != self.rows@[b].0@ by {
                        assert(rows0[a].0@ != rows0[b].0@);
                    }
                }
                return ;
            }
            j += 1;
        }
        proof {
            lemma_map_of_contains(rows0, key@);
        }
        self.rows.push((key, row));
        proof {
            assert(self.rows@.drop_last() =~= rows0);
            assert forall|a: int, b: int|
                0 <= a < b < self.rows@.len() implies self.rows@[a].0@ != self.rows@[b].0@ by {
                if b < rows0.len() {
                    assert(rows0[a].0@ != rows0[b].0@);
                } else {
                    assert(self.rows@[b].0@ == key@);
                    assert(rows0[a].0@ != key@);
                }
            }
        }
    }
}

/// The persistent store: one collection per language.
pub struct Store {
    pub de: Collection,
    pub en: Collection,
}

impl Store {
    /// Both collections have pairwise distinct keys.
    pub open spec fn wf(&self) -> bool {
        self.de.wf() && self.en.wf()
    }
}

/// Prepare the persistent store surface for use: both per-language
/// collections exist and start empty.
pub fn apply_db_migrations() -> (s: Store)
    ensures
        s.wf(),
        s.de@ == Map::<Seq<char>, RowV>::empty(),
        s.en@ == Map::<Seq<char>, RowV>::empty(),
{
    Store { de: Collection::new(), en: Collection::new() }
}

} // verus!
