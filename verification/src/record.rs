//! Records of the upstream snapshot.
//!
//! A fetched row is an ordered mapping from field names to values.  It
//! must carry a non-empty string "id" (the record key) and an integer
//! "hash" (the upstream content fingerprint); anything else is a decode
//! failure, not a silently defaulted value.  A decoded record holds the
//! two per-language projections of the whole row.

use vstd::prelude::*;

use crate::decompose::Lang;
use crate::decompose::dict_find;
use crate::decompose::decompose_dict;
use crate::decompose::dict_get;
use crate::decompose::dict_has;
use crate::decompose::spec_decompose;
use crate::value::RawValue;
use crate::value::Val;
use crate::value::entries_view;
use crate::value::lemma_entries_view;

verus! {

/// A fetched snapshot row: an ordered mapping from field names to values.
pub type RawRow = Vec<(String, RawValue)>;

/// Why a row could not be decoded into a record.
#[derive(Clone, Copy, PartialEq, Eq, Structural, Debug)]
pub enum DecodeFault {
    /// The row has no "id" field.
    MissingId,
    /// The "id" field is not a string.
    IdNotText,
    /// The "id" field is an empty string.
    EmptyId,
    /// The row has no "hash" field.
    MissingHash,
    /// The "hash" field is not an integer.
    HashNotInt,
    /// The fetched payload is not the expected table or object shape;
    /// reported at the fetch edge, before rows exist.
    WrongShape,
}

/// An error of one synchronisation run.
#[derive(Debug)]
pub enum SyncError {
    /// Transport failure or non-success status contacting the snapshot
    /// source.
    Network { detail: String },
    /// A row does not match the expected record shape; carries what is
    /// known of the offending record's key.
    Decode { fault: DecodeFault, key: String },
    /// A write could not be performed; names the record and the offending
    /// payload field.
    Storage { key: String, field: String },
}

/// The field name carrying the record key.
pub open spec fn id_key() -> Seq<char> {
    "id"@
}

/// The field name carrying the content hash.
pub open spec fn hash_key() -> Seq<char> {
    "hash"@
}

/// A record decoded from one snapshot row: its key, its content hash and
/// its two per-language projections.
#[derive(Debug)]
pub struct Record {
    pub key: String,
    pub hash: i64,
    pub de: RawValue,
    pub en: RawValue,
}

/// The mathematical model of a [`Record`].
#[verifier::ext_equal]
pub struct RecordV {
    pub key: Seq<char>,
    pub hash: int,
    pub de: Val,
    pub en: Val,
}

impl View for Record {
    type V = RecordV;

    open spec fn view(&self) -> RecordV {
        RecordV { key: self.key@, hash: self.hash as int, de: self.de@, en: self.en@ }
    }
}

impl Record {
    /// Whether two records carry the same content hash: the cheap change
    /// check, as upstream fingerprints stand for content.
    pub fn same_content(&self, other: &Record) -> (r: bool)
        ensures
            r == (self@.hash == other@.hash),
    {
        self.hash == other.hash
    }
}

/// The first reason this row cannot be decoded, if any; the checks run in
/// the order id present, id a string, id non-empty, hash present, hash an
/// integer.
pub open spec fn spec_row_fault(row: Seq<(Seq<char>, Val)>) -> Option<DecodeFault> {
    if !dict_has(row, id_key()) {
        Some(DecodeFault::MissingId)
    } else if !(dict_get(row, id_key()) is Text) {
        Some(DecodeFault::IdNotText)
    } else if dict_get(row, id_key())->Text_0.len() == 0 {
        Some(DecodeFault::EmptyId)
    } else if !dict_has(row, hash_key()) {
        Some(DecodeFault::MissingHash)
    } else if !(dict_get(row, hash_key()) is Int) {
        Some(DecodeFault::HashNotInt)
    } else {
        None
    }
}

/// What is known of the offending record's key when decoding fails: the
/// "id" text where one exists, the empty string otherwise.
pub open spec fn spec_fault_key(row: Seq<(Seq<char>, Val)>) -> Seq<char> {
    if dict_has(row, id_key()) && dict_get(row, id_key()) is Text {
        dict_get(row, id_key())->Text_0
    } else {
        Seq::empty()
    }
}

/// The record key of a decodable row.
pub open spec fn spec_row_key(row: Seq<(Seq<char>, Val)>) -> Seq<char> {
    dict_get(row, id_key())->Text_0
}

/// The record a decodable row decodes to.
pub open spec fn spec_decode_row(row: Seq<(Seq<char>, Val)>) -> RecordV {
    RecordV {
        key: spec_row_key(row),
        hash: dict_get(row, hash_key())->Int_0 as int,
        de: spec_decompose(Val::Dict(row), Lang::De),
        en: spec_decompose(Val::Dict(row), Lang::En),
    }
}

/// Decode one snapshot row: check key and hash, then project the whole
/// row once per language.
pub fn decode_record(row: &RawRow) -> (r: Result<Record, SyncError>)
    ensures
        match r {
            Ok(rec) => {
                &&& spec_row_fault(entries_view(row@)) is None
                &&& rec@ == spec_decode_row(entries_view(row@))
                &&& rec@.key.len() > 0
            },
            Err(e) => {
                &&& spec_row_fault(entries_view(row@)) is Some
                &&& e matches SyncError::Decode { fault, key }
                    && Some(fault) == spec_row_fault(entries_view(row@))
                    && key@ == spec_fault_key(entries_view(row@))
            },
        },
{
    let ghost m = entries_view(row@);
    proof {
        lemma_entries_view(row@);
    }
    let key: String;
    match dict_find(row, "id") {
        None => {
            return Err(SyncError::Decode { fault: DecodeFault::MissingId, key: String::new() });
        },
        Some(j) => {
            match &row[j].1 {
                RawValue::Text(s) => {
                    if s.as_str().is_empty() {
                        return Err(SyncError::Decode { fault: DecodeFault::EmptyId, key: s.clone() });
                    }
                    key = s.clone();
                },
                _ => {
                    return Err(SyncError::Decode {
                        fault: DecodeFault::IdNotText,
                        key: String::new(),
                    });
                },
            }
        },
    }
    let hash: i64;
    match dict_find(row, "hash") {
        None => {
            return Err(SyncError::Decode { fault: DecodeFault::MissingHash, key });
        },
        Some(j) => {
            match &row[j].1 {
                RawValue::Int(h) => {
                    hash = *h;
                },
                _ => {
                    return Err(SyncError::Decode { fault: DecodeFault::HashNotInt, key });
                },
            }
        },
    }
    let de = decompose_dict(row, Lang::De);
    let en = decompose_dict(row, Lang::En);
    Ok(Record { key, hash, de, en })
}

/// The models of a sequence of fetched rows, in order.
pub open spec fn rows_model(rows: Seq<RawRow>) -> Seq<Seq<(Seq<char>, Val)>>
    decreases rows,
{
    if rows.len() == 0 {
        Seq::empty()
    } else {
        seq![entries_view(rows[0]@)] + rows_model(rows.drop_first())
    }
}

/// The model of a row sequence is rowwise the model of its rows.
pub proof fn lemma_rows_model(rows: Seq<RawRow>)
    ensures
        rows_model(rows).len() == rows.len(),
        forall|i: int| 0 <= i < rows.len() ==> rows_model(rows)[i] == entries_view(rows[i]@),
    decreases rows.len(),
{
    if rows.len() > 0 {
        lemma_rows_model(rows.drop_first());
        assert(rows_model(rows) == seq![entries_view(rows[0]@)] + rows_model(rows.drop_first()));
    }
}

/// Whether every row of the snapshot decodes.
pub open spec fn rows_decodable(rows: Seq<Seq<(Seq<char>, Val)>>) -> bool {
    forall|i: int| 0 <= i < rows.len() ==> spec_row_fault(#[trigger] rows[i]) is None
}

/// The index of the first row that does not decode (the length when all
/// rows decode).
pub open spec fn first_undecodable(rows: Seq<Seq<(Seq<char>, Val)>>) -> int
    decreases rows.len(),
{
    if rows.len() == 0 {
        0
    } else if spec_row_fault(rows[0]) is Some {
        0
    } else {
        1 + first_undecodable(rows.drop_first())
    }
}

/// `first_undecodable` names the first row at fault: every earlier row
/// decodes, and the named row does not (unless all do).
pub proof fn lemma_first_undecodable(rows: Seq<Seq<(Seq<char>, Val)>>)
    ensures
        0 <= first_undecodable(rows) <= rows.len(),
        forall|i: int|
            0 <= i < first_undecodable(rows) ==> spec_row_fault(#[trigger] rows[i]) is None,
        first_undecodable(rows) < rows.len() ==> spec_row_fault(rows[first_undecodable(rows)])
            is Some,
        first_undecodable(rows) == rows.len() ==> rows_decodable(rows),
    decreases rows.len(),
{
    if rows.len() > 0 && spec_row_fault(rows[0]) is None {
        lemma_first_undecodable(rows.drop_first());
        let n = first_undecodable(rows.drop_first());
        assert(forall|i: int| 0 < i < 1 + n ==> rows[i] == rows.drop_first()[i - 1]);
        if 1 + n == rows.len() {
            assert forall|i: int| 0 <= i < rows.len() implies spec_row_fault(
                #[trigger] rows[i],
            ) is None by {
                if i > 0 {
                    assert(rows[i] == rows.drop_first()[i - 1]);
                }
            }
        }
    }
}

/// The records of a decodable snapshot, in order.
pub open spec fn decoded_records(rows: Seq<Seq<(Seq<char>, Val)>>) -> Seq<RecordV> {
    rows.map_values(|row: Seq<(Seq<char>, Val)>| spec_decode_row(row))
}

/// Decode a whole snapshot, stopping at the first row at fault: on
/// success every row decoded, in order; on failure the error describes
/// the first undecodable row.
pub fn decode_snapshot(rows: &Vec<RawRow>) -> (r: Result<Vec<Record>, SyncError>)
    ensures
        match r {
            Ok(recs) => {
                &&& rows_decodable(rows_model(rows@))
                &&& recs@.len() == rows@.len()
                &&& forall|i: int|
                    0 <= i < rows@.len() ==> recs@[i]@ == decoded_records(rows_model(rows@))[i]
            },
            Err(e) => {
                &&& !rows_decodable(rows_model(rows@))
                &&& {
                    let n = first_undecodable(rows_model(rows@));
                    e matches SyncError::Decode { fault, key } && Some(fault) == spec_row_fault(
                        rows_model(rows@)[n],
                    ) && key@ == spec_fault_key(rows_model(rows@)[n])
                }
            },
        },
{
    let ghost ms = rows_model(rows@);
    proof {
        lemma_rows_model(rows@);
        lemma_first_undecodable(ms);
    }
    let mut recs: Vec<Record> = Vec::new();
    let mut i: usize = 0;
    while i < rows.len()
        invariant
            i <= rows@.len(),
            ms == rows_model(rows@),
            ms.len() == rows@.len(),
            forall|k: int| 0 <= k < ms.len() ==> ms[k] == entries_view(rows@[k]@),
            0 <= first_undecodable(ms) <= ms.len(),
            forall|k: int|
                0 <= k < first_undecodable(ms) ==> spec_row_fault(#[trigger] ms[k]) is None,
            first_undecodable(ms) < ms.len() ==> spec_row_fault(ms[first_undecodable(ms)])
                is Some,
            first_undecodable(ms) == ms.len() ==> rows_decodable(ms),
            recs@.len() == i,
            forall|k: int| 0 <= k < i ==> spec_row_fault(#[trigger] ms[k]) is None,
            forall|k: int| 0 <= k < i ==> recs@[k]@ == spec_decode_row(#[trigger] ms[k]),
        decreases rows@.len() - i,
    {
        match decode_record(&rows[i]) {
            Ok(rec) => {
                recs.push(rec);
            },
            Err(e) => {
                proof {
                    let n = first_undecodable(ms);
                    assert(ms[i as int] == entries_view(rows@[i as int]@));
                    assert(spec_row_fault(ms[i as int]) is Some);
                    if n < i as int {
                        assert(spec_row_fault(ms[n]) is None);
                        assert(spec_row_fault(ms[n]) is Some);
                        assert(false);
                    }
                    if n > i as int {
                        assert(spec_row_fault(ms[i as int]) is None);
                        assert(false);
                    }
                    assert(n == i as int);
                }
                return Err(e);
            },
        }
        i += 1;
    }
    proof {
        assert(rows_decodable(ms));
        assert(forall|k: int|
            0 <= k < ms.len() ==> decoded_records(ms)[k] == spec_decode_row(#[trigger] ms[k]));
    }
    Ok(recs)
}

} // verus!
