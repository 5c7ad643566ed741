//! The sink driven as the relational backend drives it: the same engine,
//! with records laid out as typed columns and the scope given as
//! column-equals-value pairs.

use cursor_sink::value::{clone_fields, find_field, value_eq};
use cursor_sink::{
    Condition, Context, Cursor, CursorAction, Finality, RowRecord, Sink, SinkOptions, Value,
};

fn new_cursor(order_key: u64) -> Cursor {
    Cursor { order_key, unique_key: order_key.to_be_bytes().to_vec() }
}

fn text(s: &str) -> Value {
    Value::Text(s.to_string())
}

fn obj(fields: Vec<(&str, Value)>) -> Value {
    Value::Object(
        fields
            .into_iter()
            .map(|(n, v)| cursor_sink::Field { name: n.to_string(), value: v })
            .collect(),
    )
}

fn ctx(cursor: Option<Cursor>, end_cursor: Cursor) -> Context {
    Context { cursor, end_cursor, finality: Finality::Finalized }
}

fn opt_text(v: &Option<String>) -> Value {
    match v {
        Some(s) => text(s),
        None => Value::Null,
    }
}

fn new_batch(start_cursor: &Option<Cursor>, end_cursor: &Cursor) -> Value {
    new_batch_with_additional_columns(start_cursor, end_cursor, None, None)
}

fn new_batch_with_additional_columns(
    start_cursor: &Option<Cursor>,
    end_cursor: &Cursor,
    col1: Option<String>,
    col2: Option<String>,
) -> Value {
    let start_block_num = match start_cursor {
        Some(cursor) => cursor.order_key,
        None => 0,
    };
    let mut items = Vec::new();
    for i in start_block_num..end_cursor.order_key {
        items.push(obj(vec![
            ("block_num", Value::Int(i as i64)),
            ("block_str", text(&format!("block_{}", i))),
            ("col1", opt_text(&col1)),
            ("col2", opt_text(&col2)),
        ]));
    }
    Value::List(items)
}

fn new_sink() -> Sink {
    new_sink_with_invalidate(Vec::new())
}

fn new_sink_with_invalidate(invalidate: Vec<Condition>) -> Sink {
    Sink::from_options(SinkOptions {
        target: "test".to_string(),
        entity_mode: false,
        invalidation_scope: invalidate,
    })
}

/// The row as the relational tests read it back: cursor, block number and
/// block string.
fn test_row(rec: &RowRecord) -> (i64, i64, String) {
    let fields = clone_fields(&rec.fields);
    let block_num = match find_field(&fields, &"block_num".to_string()) {
        Some(Value::Int(i)) => *i,
        _ => panic!("missing block_num"),
    };
    let block_str = match find_field(&fields, &"block_str".to_string()) {
        Some(Value::Text(s)) => s.clone(),
        _ => panic!("missing block_str"),
    };
    (rec.cursor as i64, block_num, block_str)
}

fn new_rows(start_cursor: &Option<Cursor>, end_cursor: &Cursor) -> Vec<(i64, i64, String)> {
    let start_block_num = match start_cursor {
        Some(cursor) => cursor.order_key as i64,
        None => 0,
    };
    let end_block_num = end_cursor.order_key as i64;
    (start_block_num..end_block_num)
        .map(|i| (end_block_num, i, format!("block_{}", i)))
        .collect()
}

fn get_all_rows(sink: &Sink) -> Vec<(i64, i64, String)> {
    sink.rows.records.iter().map(test_row).collect()
}

#[test]
fn test_sink_test_handle_data() {
    let mut sink = new_sink();
    let batch_size = 2u64;
    let num_batches = 5u64;

    let mut all_rows = Vec::new();

    for order_key in 0..num_batches {
        let cursor = Some(new_cursor(order_key * batch_size));
        let end_cursor = new_cursor((order_key + 1) * batch_size);
        let batch = new_batch(&cursor, &end_cursor);
        all_rows.extend(new_rows(&cursor, &end_cursor));

        let c = ctx(
            Some(new_cursor(order_key * batch_size)),
            new_cursor((order_key + 1) * batch_size),
        );
        let action = sink.handle_data(&c, &batch).unwrap();
        assert_eq!(action, CursorAction::Persist);

        let action = sink.handle_data(&c, &Value::List(Vec::new())).unwrap();
        assert_eq!(action, CursorAction::Persist);
    }

    assert_eq!(all_rows, get_all_rows(&sink));
}

fn run_handle_invalidate_all_relational(invalidate_from: &Option<Cursor>) {
    assert!(
        invalidate_from.is_none() || invalidate_from.as_ref().unwrap().order_key == 0
    );

    let mut sink = new_sink();
    let batch_size = 2u64;
    let num_batches = 5u64;

    let mut expected_rows = Vec::new();

    for order_key in 0..num_batches {
        let cursor = Some(new_cursor(order_key * batch_size));
        let end_cursor = new_cursor((order_key + 1) * batch_size);
        let batch = new_batch(&cursor, &end_cursor);
        expected_rows.extend(new_rows(&cursor, &end_cursor));

        let c = ctx(
            Some(new_cursor(order_key * batch_size)),
            new_cursor((order_key + 1) * batch_size),
        );
        let action = sink.handle_data(&c, &batch).unwrap();
        assert_eq!(action, CursorAction::Persist);
    }

    assert_eq!(expected_rows, get_all_rows(&sink));
    assert_eq!(sink.rows.records.len() as u64, batch_size * num_batches);

    sink.handle_invalidate(invalidate_from).unwrap();

    assert_eq!(sink.rows.records.len(), 0);
}

#[test]
fn test_sink_test_handle_invalidate_genesis() {
    run_handle_invalidate_all_relational(&None);
}

#[test]
fn test_sink_test_handle_invalidate_block_zero() {
    run_handle_invalidate_all_relational(&Some(new_cursor(0)));
}

#[test]
fn test_sink_test_handle_invalidate() {
    let mut sink = new_sink();
    let batch_size = 2u64;
    let num_batches = 5u64;

    let mut all_rows = Vec::new();

    for order_key in 0..num_batches {
        let cursor = Some(new_cursor(order_key * batch_size));
        let end_cursor = new_cursor((order_key + 1) * batch_size);
        let batch = new_batch(&cursor, &end_cursor);
        all_rows.extend(new_rows(&cursor, &end_cursor));

        let c = ctx(
            Some(new_cursor(order_key * batch_size)),
            new_cursor((order_key + 1) * batch_size),
        );
        let action = sink.handle_data(&c, &batch).unwrap();
        assert_eq!(action, CursorAction::Persist);
    }

    assert_eq!(all_rows, get_all_rows(&sink));

    let invalidate_from = 2i64;
    sink.handle_invalidate(&Some(new_cursor(invalidate_from as u64))).unwrap();

    let expected_rows: Vec<(i64, i64, String)> = all_rows
        .into_iter()
        .filter(|row| row.0 <= invalidate_from)
        .collect();

    assert_eq!(expected_rows, get_all_rows(&sink));
}

#[test]
fn test_handle_invalidate_with_additional_condition() {
    let invalidate = vec![
        Condition { field: "col1".to_string(), value: text("a") },
        Condition { field: "col2".to_string(), value: text("a") },
    ];
    let mut sink = new_sink_with_invalidate(invalidate);

    let batch_size = 2u64;
    let num_batches = 5u64;

    for order_key in 0..num_batches {
        let cursor = Some(new_cursor(order_key * batch_size));
        let end_cursor = new_cursor((order_key + 1) * batch_size);
        let c = ctx(
            Some(new_cursor(order_key * batch_size)),
            new_cursor((order_key + 1) * batch_size),
        );

        let batch = new_batch_with_additional_columns(
            &cursor,
            &end_cursor,
            Some("a".to_string()),
            Some("b".to_string()),
        );
        let action = sink.handle_data(&c, &batch).unwrap();
        assert_eq!(action, CursorAction::Persist);

        let batch = new_batch_with_additional_columns(
            &cursor,
            &end_cursor,
            Some("a".to_string()),
            Some("a".to_string()),
        );
        let action = sink.handle_data(&c, &batch).unwrap();
        assert_eq!(action, CursorAction::Persist);
    }

    sink.handle_invalidate(&Some(new_cursor(2))).unwrap();

    // 10 rows with col1 = "a" and col2 = "b" are exempt from rollback;
    // 2 rows with col1 = "a" and col2 = "a" survive by their cursor.
    assert_eq!(sink.rows.records.len(), 12);

    // No surviving scoped row was created after the rollback position.
    for rec in &sink.rows.records {
        let fields = clone_fields(&rec.fields);
        let col2 = find_field(&fields, &"col2".to_string()).unwrap();
        if value_eq(col2, &text("a")) {
            assert!(rec.cursor <= 2);
        }
    }
}
