//! Backend representations. The engines work on the logical store; only
//! here is the backend-specific shape of a persisted record chosen: the
//! document backend nests the validity marker of a version as a `_cursor`
//! sub-object, while the relational backend lays validity out as scalar
//! columns.

use vstd::prelude::*;

use crate::entity::Version;
use crate::row::RowRecord;
use crate::value::{
    clone_fields, field_views_of, lemma_field_views_of, Field, FieldV, Value, ValueV,
};

verus! {

/// The fields of an object value; an empty sequence for any other shape.
pub open spec fn object_fields(v: ValueV) -> Seq<FieldV> {
    match v {
        ValueV::Object(fs) => fs,
        _ => Seq::empty(),
    }
}

/// The nested validity marker of a version in the document backend: a
/// `_cursor` sub-object exposing `from`, and `to` only once closed.
pub open spec fn validity_marker(valid_from: u64, valid_to: Option<u64>) -> FieldV {
    FieldV {
        name: "_cursor"@,
        value: ValueV::Object(
            seq![
                FieldV { name: "from"@, value: ValueV::Int(valid_from as i64) },
                FieldV {
                    name: "to"@,
                    value: match valid_to {
                        Some(t) => ValueV::Int(t as i64),
                        None => ValueV::Null,
                    },
                },
            ],
        ),
    }
}

/// The document stored for one row-mode record: the record's fields plus
/// one scalar `_cursor` field.
pub fn document_of_row(r: &RowRecord) -> (d: Value)
    requires
        r.cursor <= i64::MAX as u64,
    ensures
        d@ == ValueV::Object(
            r@.fields.push(
                FieldV { name: "_cursor"@, value: ValueV::Int(r.cursor as i64) },
            ),
        ),
{
    let mut fields = clone_fields(&r.fields);
    let ghost before = fields@;
    fields.push(Field { name: "_cursor".to_owned(), value: Value::Int(r.cursor as i64) });
    proof {
        lemma_field_views_of(before);
        lemma_field_views_of(fields@);
        assert(field_views_of(fields@) =~= field_views_of(before).push(
            FieldV { name: "_cursor"@, value: ValueV::Int(r.cursor as i64) },
        ));
    }
    Value::Object(fields)
}

/// The document stored for one entity version: the entity key's fields,
/// the version's data fields, and the nested validity marker.
pub fn document_of_version(key: &Value, v: &Version) -> (d: Value)
    requires
        v.valid_from <= i64::MAX as u64,
        match v.valid_to {
            Some(t) => t <= i64::MAX as u64,
            None => true,
        },
    ensures
        d@ == ValueV::Object(
            object_fields(key@) + v@.data + seq![validity_marker(v.valid_from, v.valid_to)],
        ),
{
    let mut fields: Vec<Field> = match key {
        Value::Object(kfs) => clone_fields(kfs),
        _ => Vec::new(),
    };
    proof {
        lemma_field_views_of(fields@);
        assert(field_views_of(fields@) =~= object_fields(key@));
    }
    let ghost key_seq = fields@;
    let ghost key_part = field_views_of(fields@);
    let mut data = clone_fields(&v.data);
    let ghost data_seq = data@;
    let ghost data_part = field_views_of(data@);
    fields.append(&mut data);
    proof {
        lemma_field_views_of(key_seq);
        lemma_field_views_of(data_seq);
        lemma_field_views_of(fields@);
        assert(fields@ == key_seq + data_seq);
        assert(field_views_of(fields@) =~= key_part + data_part);
    }
    let ghost merged = field_views_of(fields@);
    let to_value: Value = match v.valid_to {
        Some(t) => Value::Int(t as i64),
        None => Value::Null,
    };
    let mut marker_fields: Vec<Field> = Vec::new();
    marker_fields.push(Field { name: "from".to_owned(), value: Value::Int(v.valid_from as i64) });
    marker_fields.push(Field { name: "to".to_owned(), value: to_value });
    let marker = Field { name: "_cursor".to_owned(), value: Value::Object(marker_fields) };
    let ghost markerv = marker@;
    proof {
        lemma_field_views_of(marker_fields@);
        assert(markerv == validity_marker(v.valid_from, v.valid_to)) by {
            assert(field_views_of(marker_fields@) =~= seq![
                FieldV { name: "from"@, value: ValueV::Int(v.valid_from as i64) },
                FieldV {
                    name: "to"@,
                    value: match v.valid_to {
                        Some(t) => ValueV::Int(t as i64),
                        None => ValueV::Null,
                    },
                },
            ]);
        }
    }
    let ghost merged_seq = fields@;
    fields.push(marker);
    proof {
        lemma_field_views_of(merged_seq);
        lemma_field_views_of(fields@);
        assert(field_views_of(fields@) =~= merged + seq![
            validity_marker(v.valid_from, v.valid_to),
        ]);
        assert(merged + seq![validity_marker(v.valid_from, v.valid_to)] =~= object_fields(key@)
            + v@.data + seq![validity_marker(v.valid_from, v.valid_to)]);
    }
    Value::Object(fields)
}

/// The columns stored for one row-mode record in the relational backend:
/// the record's fields plus one scalar `_cursor` column.
pub fn columns_of_row(r: &RowRecord) -> (row: Vec<Field>)
    requires
        r.cursor <= i64::MAX as u64,
    ensures
        field_views_of(row@) == r@.fields.push(
            FieldV { name: "_cursor"@, value: ValueV::Int(r.cursor as i64) },
        ),
{
    let mut row = clone_fields(&r.fields);
    let ghost before = row@;
    row.push(Field { name: "_cursor".to_owned(), value: Value::Int(r.cursor as i64) });
    proof {
        lemma_field_views_of(before);
        lemma_field_views_of(row@);
        assert(field_views_of(row@) =~= field_views_of(before).push(
            FieldV { name: "_cursor"@, value: ValueV::Int(r.cursor as i64) },
        ));
    }
    row
}

/// The columns stored for one entity version in the relational backend:
/// the data fields plus one comparable `_valid_from` column and one
/// nullable `_valid_to` column.
pub fn columns_of_version(v: &Version) -> (row: Vec<Field>)
    requires
        v.valid_from <= i64::MAX as u64,
        match v.valid_to {
            Some(t) => t <= i64::MAX as u64,
            None => true,
        },
    ensures
        field_views_of(row@) == v@.data + seq![
            FieldV { name: "_valid_from"@, value: ValueV::Int(v.valid_from as i64) },
            FieldV {
                name: "_valid_to"@,
                value: match v.valid_to {
                    Some(t) => ValueV::Int(t as i64),
                    None => ValueV::Null,
                },
            },
        ],
{
    let mut row = clone_fields(&v.data);
    let ghost before = row@;
    let to_value: Value = match v.valid_to {
        Some(t) => Value::Int(t as i64),
        None => Value::Null,
    };
    row.push(Field { name: "_valid_from".to_owned(), value: Value::Int(v.valid_from as i64) });
    let ghost mid = row@;
    row.push(Field { name: "_valid_to".to_owned(), value: to_value });
    proof {
        lemma_field_views_of(before);
        lemma_field_views_of(mid);
        lemma_field_views_of(row@);
        assert(field_views_of(mid) =~= field_views_of(before).push(
            FieldV { name: "_valid_from"@, value: ValueV::Int(v.valid_from as i64) },
        ));
        assert(field_views_of(row@) =~= field_views_of(mid).push(
            FieldV {
                name: "_valid_to"@,
                value: match v.valid_to {
                    Some(t) => ValueV::Int(t as i64),
                    None => ValueV::Null,
                },
            },
        ));
        assert(field_views_of(row@) =~= field_views_of(before) + seq![
            FieldV { name: "_valid_from"@, value: ValueV::Int(v.valid_from as i64) },
            FieldV {
                name: "_valid_to"@,
                value: match v.valid_to {
                    Some(t) => ValueV::Int(t as i64),
                    None => ValueV::Null,
                },
            },
        ]);
    }
    row
}

} // verus!
