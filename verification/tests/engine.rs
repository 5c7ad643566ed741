//! Edge cases and stated behaviours of the engine: errors, increment
//! arithmetic, squashing, rollback boundaries and the adapter renderings.

use cursor_sink::adapter::{columns_of_row, columns_of_version, document_of_row, document_of_version};
use cursor_sink::cursor::effective_rollback_key;
use cursor_sink::value::{clone_fields, find_field, value_eq};
use cursor_sink::{
    Condition, Context, Cursor, CursorAction, ErrorKind, Field, Finality, RowRecord, Sink,
    SinkOperation, SinkOptions, Value, Version,
};

fn new_cursor(order_key: u64) -> Cursor {
    Cursor { order_key, unique_key: order_key.to_be_bytes().to_vec() }
}

fn text(s: &str) -> Value {
    Value::Text(s.to_string())
}

fn obj(fields: Vec<(&str, Value)>) -> Value {
    Value::Object(
        fields
            .into_iter()
            .map(|(n, v)| Field { name: n.to_string(), value: v })
            .collect(),
    )
}

fn ctx(cursor: Option<Cursor>, end_cursor: Cursor) -> Context {
    Context { cursor, end_cursor, finality: Finality::Finalized }
}

fn row_sink() -> Sink {
    Sink::from_options(SinkOptions {
        target: "test".to_string(),
        entity_mode: false,
        invalidation_scope: Vec::new(),
    })
}

fn entity_sink() -> Sink {
    Sink::from_options(SinkOptions {
        target: "test".to_string(),
        entity_mode: true,
        invalidation_scope: Vec::new(),
    })
}

fn key_k() -> Value {
    obj(vec![("id", text("k"))])
}

fn single_update(key: Value, update: Value) -> Value {
    Value::List(vec![obj(vec![("entity", key), ("update", update)])])
}

fn current_data(sink: &Sink, key: &Value) -> Option<Vec<Field>> {
    for h in &sink.entities.entities {
        if value_eq(&h.key, key) {
            let last = h.versions.last().unwrap();
            if last.valid_to.is_none() {
                return Some(clone_fields(&last.data));
            }
            return None;
        }
    }
    None
}

fn field_of<'a>(fields: &'a Vec<Field>, name: &str) -> Option<&'a Value> {
    find_field(fields, &name.to_string())
}

#[test]
fn test_malformed_batch_is_fatal() {
    let mut sink = row_sink();
    let c = ctx(None, new_cursor(1));
    let err = sink.handle_data(&c, &Value::Int(3)).unwrap_err();
    assert_eq!(err.target, "test");
    assert_eq!(err.operation, SinkOperation::HandleData);
    assert!(matches!(err.kind, ErrorKind::MalformedBatch));
    assert_eq!(sink.rows.records.len(), 0);

    let mut sink = entity_sink();
    let err = sink.handle_data(&c, &text("nope")).unwrap_err();
    assert!(matches!(err.kind, ErrorKind::MalformedBatch));
    assert_eq!(sink.entities.entities.len(), 0);
}

#[test]
fn test_unsupported_update_operator() {
    let mut sink = entity_sink();
    let c = ctx(None, new_cursor(1));
    let batch = single_update(key_k(), obj(vec![("$push", obj(vec![("v", text("x"))]))]));
    let err = sink.handle_data(&c, &batch).unwrap_err();
    assert_eq!(err.target, "test");
    assert_eq!(err.operation, SinkOperation::HandleData);
    match err.kind {
        ErrorKind::UnsupportedUpdateOperator(op) => assert_eq!(op, "$push"),
        _ => panic!("wrong error kind"),
    }
    assert_eq!(sink.entities.entities.len(), 0);
}

#[test]
fn test_unsupported_operator_aborts_whole_batch() {
    let mut sink = entity_sink();
    let c = ctx(None, new_cursor(1));
    let batch = Value::List(vec![
        obj(vec![
            ("entity", key_k()),
            ("update", obj(vec![("$set", obj(vec![("v", text("x"))]))])),
        ]),
        obj(vec![
            ("entity", key_k()),
            ("update", obj(vec![("$unset", obj(vec![("v", Value::Null)]))])),
        ]),
    ]);
    let err = sink.handle_data(&c, &batch).unwrap_err();
    match err.kind {
        ErrorKind::UnsupportedUpdateOperator(op) => assert_eq!(op, "$unset"),
        _ => panic!("wrong error kind"),
    }
    // The call fully fails: the valid first element was not applied either.
    assert_eq!(sink.entities.entities.len(), 0);
}

#[test]
fn test_empty_batch_still_persists() {
    let mut sink = row_sink();
    let c = ctx(None, new_cursor(1));
    let action = sink.handle_data(&c, &Value::List(Vec::new())).unwrap();
    assert_eq!(action, CursorAction::Persist);
    assert_eq!(sink.rows.records.len(), 0);
}

#[test]
fn test_elements_dropped_silently_in_entity_mode() {
    let mut sink = entity_sink();
    let c = ctx(None, new_cursor(1));
    let batch = Value::List(vec![
        Value::Int(7),
        text("stray"),
        obj(vec![("no_entity", text("x"))]),
        obj(vec![("entity", text("not an object")), ("update", obj(vec![]))]),
    ]);
    let action = sink.handle_data(&c, &batch).unwrap();
    assert_eq!(action, CursorAction::Persist);
    assert_eq!(sink.entities.entities.len(), 0);
}

#[test]
fn test_inc_on_absent_and_non_numeric_fields() {
    let mut sink = entity_sink();

    // An absent field is treated as zero.
    let c = ctx(None, new_cursor(1));
    let batch = single_update(key_k(), obj(vec![("$inc", obj(vec![("v", Value::Int(5))]))]));
    sink.handle_data(&c, &batch).unwrap();
    let data = current_data(&sink, &key_k()).unwrap();
    assert!(value_eq(field_of(&data, "v").unwrap(), &Value::Int(5)));

    // A non-numeric current value is treated as zero.
    let c = ctx(Some(new_cursor(1)), new_cursor(2));
    let batch = single_update(key_k(), obj(vec![("$set", obj(vec![("v", text("oops"))]))]));
    sink.handle_data(&c, &batch).unwrap();
    let c = ctx(Some(new_cursor(2)), new_cursor(3));
    let batch = single_update(key_k(), obj(vec![("$inc", obj(vec![("v", Value::Int(3))]))]));
    sink.handle_data(&c, &batch).unwrap();
    let data = current_data(&sink, &key_k()).unwrap();
    assert!(value_eq(field_of(&data, "v").unwrap(), &Value::Int(3)));
}

#[test]
fn test_inc_wraps_on_overflow() {
    let mut sink = entity_sink();
    let c = ctx(None, new_cursor(1));
    let batch = single_update(key_k(), obj(vec![("$inc", obj(vec![("v", Value::Int(i64::MAX))]))]));
    sink.handle_data(&c, &batch).unwrap();
    let c = ctx(Some(new_cursor(1)), new_cursor(2));
    let batch = single_update(key_k(), obj(vec![("$inc", obj(vec![("v", Value::Int(1))]))]));
    sink.handle_data(&c, &batch).unwrap();
    let data = current_data(&sink, &key_k()).unwrap();
    assert!(value_eq(field_of(&data, "v").unwrap(), &Value::Int(i64::MIN)));
}

#[test]
fn test_squash_two_elements_one_version() {
    let mut sink = entity_sink();
    let c = ctx(None, new_cursor(1));
    let batch = Value::List(vec![
        obj(vec![
            ("entity", key_k()),
            ("update", obj(vec![("$set", obj(vec![("a", text("1")), ("b", text("1"))]))])),
        ]),
        obj(vec![
            ("entity", key_k()),
            ("update", obj(vec![("$set", obj(vec![("b", text("2"))]))])),
        ]),
    ]);
    sink.handle_data(&c, &batch).unwrap();

    // Exactly one version was created for the key.
    assert_eq!(sink.entities.entities.len(), 1);
    assert_eq!(sink.entities.entities[0].versions.len(), 1);

    // Its data is the sequential left-to-right application of both
    // elements: the later element wins for the shared field.
    let data = current_data(&sink, &key_k()).unwrap();
    assert!(value_eq(field_of(&data, "a").unwrap(), &text("1")));
    assert!(value_eq(field_of(&data, "b").unwrap(), &text("2")));
}

#[test]
fn test_row_rollback_boundary_is_exclusive() {
    let mut sink = row_sink();
    let c = ctx(None, new_cursor(4));
    let batch = Value::List(vec![obj(vec![("n", Value::Int(1))])]);
    sink.handle_data(&c, &batch).unwrap();
    assert_eq!(sink.rows.records.len(), 1);

    // Rolling back exactly to the record's cursor keeps it.
    sink.handle_invalidate(&Some(new_cursor(4))).unwrap();
    assert_eq!(sink.rows.records.len(), 1);

    // Rolling back below it deletes it.
    sink.handle_invalidate(&Some(new_cursor(3))).unwrap();
    assert_eq!(sink.rows.records.len(), 0);
}

#[test]
fn test_entity_rollback_boundary_is_exclusive() {
    let mut sink = entity_sink();
    let c = ctx(None, new_cursor(1));
    sink.handle_data(&c, &single_update(key_k(), obj(vec![("$set", obj(vec![("v", text("a"))]))])))
        .unwrap();
    let c = ctx(Some(new_cursor(1)), new_cursor(2));
    sink.handle_data(&c, &single_update(key_k(), obj(vec![("$set", obj(vec![("v", text("b"))]))])))
        .unwrap();

    // The first version is now closed at exactly 2.
    assert_eq!(sink.entities.entities[0].versions.len(), 2);
    assert_eq!(sink.entities.entities[0].versions[0].valid_to, Some(2));

    // Invalidating to a head equal to that closing position is a no-op for
    // that version: it stays closed.
    sink.handle_invalidate(&Some(new_cursor(2))).unwrap();
    assert_eq!(sink.entities.entities[0].versions.len(), 2);
    assert_eq!(sink.entities.entities[0].versions[0].valid_to, Some(2));
    assert_eq!(sink.entities.entities[0].versions[1].valid_to, None);
}

#[test]
fn test_scenario_entity_mode() {
    // Insert a first version at position 1, update it at position 2, then
    // roll back to position 1: the second version is deleted outright and
    // the first is reopened with its original data current again.
    let mut sink = entity_sink();
    let c = ctx(None, new_cursor(1));
    sink.handle_data(&c, &single_update(key_k(), obj(vec![("$set", obj(vec![("v0", text("a"))]))])))
        .unwrap();
    let c = ctx(Some(new_cursor(1)), new_cursor(2));
    sink.handle_data(&c, &single_update(key_k(), obj(vec![("$set", obj(vec![("v0", text("b"))]))])))
        .unwrap();

    let versions = &sink.entities.entities[0].versions;
    assert_eq!(versions.len(), 2);
    assert_eq!(versions[0].valid_from, 1);
    assert_eq!(versions[0].valid_to, Some(2));
    assert_eq!(versions[1].valid_from, 2);
    assert_eq!(versions[1].valid_to, None);
    let data = current_data(&sink, &key_k()).unwrap();
    assert!(value_eq(field_of(&data, "v0").unwrap(), &text("b")));

    sink.handle_invalidate(&Some(new_cursor(1))).unwrap();

    let versions = &sink.entities.entities[0].versions;
    assert_eq!(versions.len(), 1);
    assert_eq!(versions[0].valid_from, 1);
    assert_eq!(versions[0].valid_to, None);
    let data = current_data(&sink, &key_k()).unwrap();
    assert!(value_eq(field_of(&data, "v0").unwrap(), &text("a")));
}

#[test]
fn test_scope_exemption_ignores_cursor() {
    // Records failing the scope survive any rollback, even to genesis.
    let mut sink = Sink::from_options(SinkOptions {
        target: "test".to_string(),
        entity_mode: false,
        invalidation_scope: vec![Condition { field: "col".to_string(), value: text("a") }],
    });
    let c = ctx(None, new_cursor(5));
    let batch = Value::List(vec![
        obj(vec![("col", text("a")), ("n", Value::Int(1))]),
        obj(vec![("col", text("b")), ("n", Value::Int(2))]),
        obj(vec![("n", Value::Int(3))]),
    ]);
    sink.handle_data(&c, &batch).unwrap();
    assert_eq!(sink.rows.records.len(), 3);

    sink.handle_invalidate(&None).unwrap();

    // Only the record matching the scope was deleted.
    assert_eq!(sink.rows.records.len(), 2);
    for rec in &sink.rows.records {
        let fields = clone_fields(&rec.fields);
        let col_is_a = match find_field(&fields, &"col".to_string()) {
            Some(v) => value_eq(v, &text("a")),
            None => false,
        };
        assert!(!col_is_a);
    }
}

#[test]
fn test_find_current_by_key() {
    let mut sink = entity_sink();
    let c = ctx(None, new_cursor(1));
    sink.handle_data(&c, &single_update(key_k(), obj(vec![("$set", obj(vec![("v", text("a"))]))])))
        .unwrap();
    let c = ctx(Some(new_cursor(1)), new_cursor(2));
    sink.handle_data(&c, &single_update(key_k(), obj(vec![("$set", obj(vec![("v", text("b"))]))])))
        .unwrap();

    let current = sink.entities.find_current(&key_k()).unwrap();
    assert_eq!(current.valid_from, 2);
    assert_eq!(current.valid_to, None);
    let data = clone_fields(&current.data);
    assert!(value_eq(field_of(&data, "v").unwrap(), &text("b")));

    let missing = obj(vec![("id", text("unknown"))]);
    assert!(sink.entities.find_current(&missing).is_none());
}

#[test]
fn test_effective_rollback_key_resolution() {
    assert_eq!(effective_rollback_key(&None), 0);
    assert_eq!(effective_rollback_key(&Some(new_cursor(0))), 0);
    assert_eq!(effective_rollback_key(&Some(new_cursor(7))), 7);
}

#[test]
fn test_find_field_reads_first_occurrence() {
    let fields = vec![
        Field { name: "x".to_string(), value: text("first") },
        Field { name: "x".to_string(), value: text("second") },
    ];
    let found = find_field(&fields, &"x".to_string()).unwrap();
    assert!(value_eq(found, &text("first")));
    assert!(find_field(&fields, &"y".to_string()).is_none());
}

#[test]
fn test_value_eq_is_structural() {
    let a = obj(vec![("k", Value::List(vec![Value::Int(1), Value::Null]))]);
    let b = obj(vec![("k", Value::List(vec![Value::Int(1), Value::Null]))]);
    let c = obj(vec![("k", Value::List(vec![Value::Int(2), Value::Null]))]);
    assert!(value_eq(&a, &b));
    assert!(!value_eq(&a, &c));
    assert!(!value_eq(&a, &Value::Null));
}

#[test]
fn test_document_rendering_of_row() {
    let rec = RowRecord {
        fields: vec![Field { name: "n".to_string(), value: Value::Int(1) }],
        cursor: 4,
    };
    let doc = document_of_row(&rec);
    match &doc {
        Value::Object(fields) => {
            assert_eq!(fields.len(), 2);
            let cursor = find_field(fields, &"_cursor".to_string()).unwrap();
            assert!(value_eq(cursor, &Value::Int(4)));
        },
        _ => panic!("not an object"),
    }

    let row = columns_of_row(&rec);
    assert_eq!(row.len(), 2);
    assert_eq!(row[1].name, "_cursor");
    assert!(value_eq(&row[1].value, &Value::Int(4)));
}

#[test]
fn test_document_rendering_of_version() {
    let v = Version {
        data: vec![Field { name: "v0".to_string(), value: text("a") }],
        valid_from: 1,
        valid_to: None,
    };
    let doc = document_of_version(&key_k(), &v);
    match &doc {
        Value::Object(fields) => {
            assert!(value_eq(find_field(fields, &"id".to_string()).unwrap(), &text("k")));
            assert!(value_eq(find_field(fields, &"v0".to_string()).unwrap(), &text("a")));
            let marker = find_field(fields, &"_cursor".to_string()).unwrap();
            assert!(value_eq(
                marker,
                &obj(vec![("from", Value::Int(1)), ("to", Value::Null)]),
            ));
        },
        _ => panic!("not an object"),
    }

    let closed = Version {
        data: vec![Field { name: "v0".to_string(), value: text("a") }],
        valid_from: 1,
        valid_to: Some(2),
    };
    let row = columns_of_version(&closed);
    assert_eq!(row.len(), 3);
    assert_eq!(row[1].name, "_valid_from");
    assert!(value_eq(&row[1].value, &Value::Int(1)));
    assert_eq!(row[2].name, "_valid_to");
    assert!(value_eq(&row[2].value, &Value::Int(2)));
}
