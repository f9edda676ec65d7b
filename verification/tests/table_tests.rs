use iptsdb::codec::{CellValue, FieldType, RecordValue};
use iptsdb::docs::{ColumnBlock, Doc, RootDoc, SchemaDoc};
use iptsdb::errors::DbError;
use iptsdb::store::{ContentStore, MemNames, MemStore, NamingService};
use iptsdb::table::{create_table, insert, select, DEFAULT_PUBLISH_TIMEOUT_SECS};

fn schema_of(fields: Vec<(&str, FieldType)>) -> SchemaDoc {
    SchemaDoc {
        fields: fields.into_iter().map(|(n, t)| (n.to_string(), t)).collect(),
    }
}

fn record_of(fields: Vec<(&str, RecordValue)>) -> Vec<(String, RecordValue)> {
    fields.into_iter().map(|(n, v)| (n.to_string(), v)).collect()
}

fn float_value(v: f32) -> RecordValue {
    RecordValue {
        uint: None,
        int: None,
        f32_bits: Some(v.to_bits()),
        f64_bits: Some((v as f64).to_bits()),
    }
}

#[test]
fn create_then_select_reports_empty_head() {
    let mut cs = MemStore::new();
    let mut ns = MemNames::new();
    let schema = schema_of(vec![("a", FieldType::U64)]);
    create_table(&mut cs, &mut ns, "t", schema, DEFAULT_PUBLISH_TIMEOUT_SECS).unwrap();
    // No insert yet: the head is the empty sentinel.
    let fields = vec!["a".to_string()];
    assert_eq!(select(&cs, &ns, "t", &fields, None).err(), Some(DbError::NotFound));
}

#[test]
fn insert_then_select_returns_last_row() {
    let mut cs = MemStore::new();
    let mut ns = MemNames::new();
    let schema = schema_of(vec![("a", FieldType::U64), ("b", FieldType::I32)]);
    create_table(&mut cs, &mut ns, "t", schema, DEFAULT_PUBLISH_TIMEOUT_SECS).unwrap();
    let rec = record_of(vec![
        ("a", RecordValue::of_uint(7)),
        ("b", RecordValue::of_int(-3)),
    ]);
    insert(&mut cs, &mut ns, "t", &rec, 100, DEFAULT_PUBLISH_TIMEOUT_SECS).unwrap();
    let fields = vec!["a".to_string(), "b".to_string()];
    let out = select(&cs, &ns, "t", &fields, None).unwrap();
    assert_eq!(out.rows.len(), 1);
    assert_eq!(out.rows[0], vec![CellValue::Uint(7), CellValue::Int(-3)]);
}

#[test]
fn select_unknown_key_is_not_found() {
    let cs = MemStore::new();
    let ns = MemNames::new();
    let fields = vec!["a".to_string()];
    assert_eq!(select(&cs, &ns, "nope", &fields, None).err(), Some(DbError::NotFound));
}

#[test]
fn select_undeclared_field_is_missing_field() {
    let mut cs = MemStore::new();
    let mut ns = MemNames::new();
    let schema = schema_of(vec![("a", FieldType::U64)]);
    create_table(&mut cs, &mut ns, "t", schema, DEFAULT_PUBLISH_TIMEOUT_SECS).unwrap();
    let fields = vec!["zz".to_string()];
    assert_eq!(select(&cs, &ns, "t", &fields, None).err(), Some(DbError::MissingField));
}

#[test]
fn insert_missing_field_fails() {
    let mut cs = MemStore::new();
    let mut ns = MemNames::new();
    let schema = schema_of(vec![("a", FieldType::U64)]);
    create_table(&mut cs, &mut ns, "t", schema, DEFAULT_PUBLISH_TIMEOUT_SECS).unwrap();
    let rec = record_of(vec![]);
    assert_eq!(
        insert(&mut cs, &mut ns, "t", &rec, 100, DEFAULT_PUBLISH_TIMEOUT_SECS).err(),
        Some(DbError::MissingField)
    );
}

#[test]
fn insert_type_mismatch_fails() {
    let mut cs = MemStore::new();
    let mut ns = MemNames::new();
    let schema = schema_of(vec![("a", FieldType::F64)]);
    create_table(&mut cs, &mut ns, "t", schema, DEFAULT_PUBLISH_TIMEOUT_SECS).unwrap();
    // An integer-only value offers no float bits.
    let rec = record_of(vec![("a", RecordValue::of_uint(1))]);
    assert_eq!(
        insert(&mut cs, &mut ns, "t", &rec, 100, DEFAULT_PUBLISH_TIMEOUT_SECS).err(),
        Some(DbError::TypeMismatch)
    );
}

#[test]
fn insert_unknown_key_is_not_found() {
    let mut cs = MemStore::new();
    let mut ns = MemNames::new();
    let rec = record_of(vec![("a", RecordValue::of_uint(1))]);
    assert_eq!(
        insert(&mut cs, &mut ns, "nope", &rec, 100, DEFAULT_PUBLISH_TIMEOUT_SECS).err(),
        Some(DbError::NotFound)
    );
}

#[test]
fn timestamp_is_synthesized_when_absent() {
    let mut cs = MemStore::new();
    let mut ns = MemNames::new();
    let schema = schema_of(vec![("_timestamp", FieldType::U64)]);
    create_table(&mut cs, &mut ns, "t", schema, DEFAULT_PUBLISH_TIMEOUT_SECS).unwrap();
    let rec = record_of(vec![]);
    insert(&mut cs, &mut ns, "t", &rec, 12345, DEFAULT_PUBLISH_TIMEOUT_SECS).unwrap();
    let fields = vec!["_timestamp".to_string()];
    let out = select(&cs, &ns, "t", &fields, None).unwrap();
    assert_eq!(out.rows, vec![vec![CellValue::Uint(12345)]]);
    assert_eq!(out.header, vec!["timestamp (UTC)".to_string()]);
}

#[test]
fn supplied_timestamp_is_kept() {
    let mut cs = MemStore::new();
    let mut ns = MemNames::new();
    let schema = schema_of(vec![("_timestamp", FieldType::U64)]);
    create_table(&mut cs, &mut ns, "t", schema, DEFAULT_PUBLISH_TIMEOUT_SECS).unwrap();
    let rec = record_of(vec![("_timestamp", RecordValue::of_uint(777))]);
    insert(&mut cs, &mut ns, "t", &rec, 12345, DEFAULT_PUBLISH_TIMEOUT_SECS).unwrap();
    let fields = vec!["_timestamp".to_string()];
    let out = select(&cs, &ns, "t", &fields, None).unwrap();
    assert_eq!(out.rows, vec![vec![CellValue::Uint(777)]]);
}

// After N inserts touching a field of width w, the stored column buffer
// holds exactly N*w bytes.
#[test]
fn column_buffer_grows_by_width() {
    let mut cs = MemStore::new();
    let mut ns = MemNames::new();
    let schema = schema_of(vec![("temp", FieldType::F32)]);
    create_table(&mut cs, &mut ns, "t", schema, DEFAULT_PUBLISH_TIMEOUT_SECS).unwrap();
    let rec = record_of(vec![("temp", float_value(21.5))]);
    let mut lens: Vec<usize> = Vec::new();
    for now in [1000u64, 1001, 1002] {
        let root_id = insert(&mut cs, &mut ns, "t", &rec, now, DEFAULT_PUBLISH_TIMEOUT_SECS)
            .unwrap();
        let root = match cs.get(root_id).unwrap() {
            Doc::Root(r) => r,
            other => panic!("expected a root document, got {:?} variant", doc_kind(&other)),
        };
        let head = root.columns[0].1.expect("head set after insert");
        let block = match cs.get(head).unwrap() {
            Doc::Column(b) => b,
            other => panic!("expected a column block, got {:?} variant", doc_kind(&other)),
        };
        assert_eq!(block.next, None);
        lens.push(block.data.len());
    }
    // Exactly N * 4 bytes, never shrinking.
    assert_eq!(lens, vec![4, 8, 12]);
}

fn doc_kind(d: &Doc) -> &'static str {
    match d {
        Doc::Schema(_) => "schema",
        Doc::Root(_) => "root",
        Doc::Column(_) => "column",
    }
}

// On a successful publish, garbage collection deletes exactly the
// previously-referenced root and column block ids and nothing else.
#[test]
fn gc_deletes_exactly_the_superseded_blocks() {
    let mut cs = MemStore::new();
    let mut ns = MemNames::new();
    let schema = schema_of(vec![("a", FieldType::U64)]);
    let root0 = create_table(&mut cs, &mut ns, "t", schema, DEFAULT_PUBLISH_TIMEOUT_SECS)
        .unwrap();
    let rec = record_of(vec![("a", RecordValue::of_uint(1))]);
    let root1 = insert(&mut cs, &mut ns, "t", &rec, 100, DEFAULT_PUBLISH_TIMEOUT_SECS).unwrap();
    // The old root is gone; the new root and its block remain.
    assert_eq!(cs.get(root0).err(), Some(DbError::NotFound));
    let root = match cs.get(root1).unwrap() {
        Doc::Root(r) => r,
        _ => panic!("expected a root document"),
    };
    let head1 = root.columns[0].1.unwrap();
    assert!(cs.get(head1).is_ok());
    let schema_id = root.schema_id;
    assert!(cs.get(schema_id).is_ok());

    let root2 = insert(&mut cs, &mut ns, "t", &rec, 101, DEFAULT_PUBLISH_TIMEOUT_SECS).unwrap();
    // The superseded root and block are gone, nothing else.
    assert_eq!(cs.get(root1).err(), Some(DbError::NotFound));
    assert_eq!(cs.get(head1).err(), Some(DbError::NotFound));
    assert!(cs.get(schema_id).is_ok());
    let root_after = match cs.get(root2).unwrap() {
        Doc::Root(r) => r,
        _ => panic!("expected a root document"),
    };
    assert!(cs.get(root_after.columns[0].1.unwrap()).is_ok());
    assert_eq!(ns.resolve("t").unwrap(), root2);
}

// With no limit, the row count equals the minimum row count across all
// requested columns.
#[test]
fn select_row_count_is_minimum_across_columns() {
    // Build a table state whose columns disagree on length: column "a"
    // (u8) holds three values, column "b" (u16) holds two.
    let mut cs = MemStore::new();
    let schema = schema_of(vec![("a", FieldType::U8), ("b", FieldType::U16)]);
    let schema_id = cs.put(Doc::Schema(schema)).unwrap();
    let a_id = cs
        .put(Doc::Column(ColumnBlock { data: vec![1, 2, 3], next: None }))
        .unwrap();
    let b_id = cs
        .put(Doc::Column(ColumnBlock { data: vec![10, 0, 20, 0], next: None }))
        .unwrap();
    let root = RootDoc {
        schema_id,
        columns: vec![("a".to_string(), Some(a_id)), ("b".to_string(), Some(b_id))],
    };
    let root_id = cs.put(Doc::Root(root)).unwrap();
    let mut ns = MemNames::new();
    ns.publish("t", root_id, DEFAULT_PUBLISH_TIMEOUT_SECS).unwrap();

    let fields = vec!["a".to_string(), "b".to_string()];
    let out = select(&cs, &ns, "t", &fields, None).unwrap();
    assert_eq!(out.rows.len(), 2);
    assert_eq!(out.rows[0], vec![CellValue::Uint(1), CellValue::Uint(10)]);
    assert_eq!(out.rows[1], vec![CellValue::Uint(2), CellValue::Uint(20)]);
}

#[test]
fn select_reports_truncated_column() {
    // A u16 column holding three bytes ends mid-value.
    let mut cs = MemStore::new();
    let schema = schema_of(vec![("a", FieldType::U16)]);
    let schema_id = cs.put(Doc::Schema(schema)).unwrap();
    let a_id = cs
        .put(Doc::Column(ColumnBlock { data: vec![1, 0, 2], next: None }))
        .unwrap();
    let root = RootDoc { schema_id, columns: vec![("a".to_string(), Some(a_id))] };
    let root_id = cs.put(Doc::Root(root)).unwrap();
    let mut ns = MemNames::new();
    ns.publish("t", root_id, DEFAULT_PUBLISH_TIMEOUT_SECS).unwrap();

    let fields = vec!["a".to_string()];
    assert_eq!(select(&cs, &ns, "t", &fields, None).err(), Some(DbError::Truncated));
    // A limit that stops before the ragged tail still succeeds.
    let out = select(&cs, &ns, "t", &fields, Some(1)).unwrap();
    assert_eq!(out.rows, vec![vec![CellValue::Uint(1)]]);
}

#[test]
fn select_dangling_head_is_not_found() {
    let mut cs = MemStore::new();
    let schema = schema_of(vec![("a", FieldType::U8)]);
    let schema_id = cs.put(Doc::Schema(schema)).unwrap();
    let root = RootDoc { schema_id, columns: vec![("a".to_string(), Some(999))] };
    let root_id = cs.put(Doc::Root(root)).unwrap();
    let mut ns = MemNames::new();
    ns.publish("t", root_id, DEFAULT_PUBLISH_TIMEOUT_SECS).unwrap();
    let fields = vec!["a".to_string()];
    assert_eq!(select(&cs, &ns, "t", &fields, None).err(), Some(DbError::NotFound));
}

// The scenario: a `{"_timestamp": u64, "temp": f32}` table, three
// inserts of `{"temp": 21.5}`, then scans.
#[test]
fn three_inserts_scenario() {
    let mut cs = MemStore::new();
    let mut ns = MemNames::new();
    let schema = schema_of(vec![("_timestamp", FieldType::U64), ("temp", FieldType::F32)]);
    create_table(&mut cs, &mut ns, "weather", schema, DEFAULT_PUBLISH_TIMEOUT_SECS).unwrap();
    let rec = record_of(vec![("temp", float_value(21.5))]);
    for now in [1_600_000_000u64, 1_600_000_060, 1_600_000_120] {
        insert(&mut cs, &mut ns, "weather", &rec, now, DEFAULT_PUBLISH_TIMEOUT_SECS).unwrap();
    }

    let fields = vec!["_timestamp".to_string(), "temp".to_string()];
    let out = select(&cs, &ns, "weather", &fields, None).unwrap();
    assert_eq!(out.header, vec!["timestamp (UTC)".to_string(), "temp".to_string()]);
    assert_eq!(out.rows.len(), 3);
    let mut last: u64 = 0;
    for row in &out.rows {
        let ts = match row[0] {
            CellValue::Uint(ts) => ts,
            _ => panic!("expected a timestamp"),
        };
        assert!(ts > last);
        last = ts;
        match row[1] {
            CellValue::F32Bits(bits) => assert!((f32::from_bits(bits) - 21.5).abs() < 1e-6),
            _ => panic!("expected f32 bits"),
        }
    }

    // The pinned limit semantics: at most `limit` rows, counted from the
    // first row.
    let temp_only = vec!["temp".to_string()];
    let limited = select(&cs, &ns, "weather", &temp_only, Some(1)).unwrap();
    assert_eq!(limited.rows.len(), 1);
    let unlimited = select(&cs, &ns, "weather", &temp_only, Some(10)).unwrap();
    assert_eq!(unlimited.rows.len(), 3);
    let zero = select(&cs, &ns, "weather", &temp_only, Some(0)).unwrap();
    assert_eq!(zero.rows.len(), 0);
}
