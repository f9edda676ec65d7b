use iptsdb::codec::{FieldType, RecordValue};
use iptsdb::docs::{Doc, SchemaDoc};
use iptsdb::errors::DbError;
use iptsdb::render::{parse_type, timestamp_display, type_label};
use iptsdb::store::{ContentStore, MemNames, MemStore, NamingService};
use iptsdb::table::{create_table, insert, select, DEFAULT_PUBLISH_TIMEOUT_SECS};

/// A content store whose backend is unreachable.
struct FailingStore;

impl ContentStore for FailingStore {
    // The abstract state is ghost: it is never computed at run time.
    fn content(&self) -> iptsdb::store::ContentModel {
        panic!("ghost state")
    }
    fn put(&mut self, _d: Doc) -> Result<u64, DbError> {
        Err(DbError::StoreUnavailable)
    }
    fn get(&self, _id: u64) -> Result<Doc, DbError> {
        Err(DbError::StoreUnavailable)
    }
    fn delete(&mut self, _id: u64) -> Result<(), DbError> {
        Err(DbError::StoreUnavailable)
    }
}

/// A naming service that resolves normally but whose publish step always
/// exceeds its deadline.
struct TimingOutNames {
    inner: MemNames,
}

impl NamingService for TimingOutNames {
    // The abstract state is ghost: it is never computed at run time.
    fn names(&self) -> iptsdb::store::NamesModel {
        panic!("ghost state")
    }
    fn resolve(&self, key: &str) -> Result<u64, DbError> {
        self.inner.resolve(key)
    }
    fn publish(&mut self, _key: &str, _id: u64, _timeout_secs: u64) -> Result<(), DbError> {
        Err(DbError::Timeout)
    }
}

fn schema_of(fields: Vec<(&str, FieldType)>) -> SchemaDoc {
    SchemaDoc {
        fields: fields.into_iter().map(|(n, t)| (n.to_string(), t)).collect(),
    }
}

#[test]
fn unavailable_store_surfaces() {
    let mut cs = FailingStore;
    let mut ns = MemNames::new();
    let schema = schema_of(vec![("a", FieldType::U64)]);
    assert_eq!(
        create_table(&mut cs, &mut ns, "t", schema, DEFAULT_PUBLISH_TIMEOUT_SECS).err(),
        Some(DbError::StoreUnavailable)
    );
    // Nothing was published.
    assert_eq!(ns.resolve("t").err(), Some(DbError::NotFound));
}

#[test]
fn publish_timeout_deletes_nothing() {
    let mut cs = MemStore::new();
    let mut ns = MemNames::new();
    let schema = schema_of(vec![("a", FieldType::U64)]);
    create_table(&mut cs, &mut ns, "t", schema, DEFAULT_PUBLISH_TIMEOUT_SECS).unwrap();
    let root0 = ns.resolve("t").unwrap();

    let mut slow = TimingOutNames { inner: ns };
    let rec = vec![("a".to_string(), RecordValue::of_uint(5))];
    assert_eq!(
        insert(&mut cs, &mut slow, "t", &rec, 100, DEFAULT_PUBLISH_TIMEOUT_SECS).err(),
        Some(DbError::Timeout)
    );
    // The previously published pointer remains the committed state, and
    // everything it references is still present.
    assert_eq!(slow.resolve("t").unwrap(), root0);
    let root = match cs.get(root0).unwrap() {
        Doc::Root(r) => r,
        _ => panic!("expected a root document"),
    };
    assert!(cs.get(root.schema_id).is_ok());
    // The reader view is unchanged: a select still reports the empty head.
    let fields = vec!["a".to_string()];
    assert_eq!(
        select(&cs, &slow.inner, "t", &fields, None).err(),
        Some(DbError::NotFound)
    );
}

#[test]
fn timestamp_labels_are_utc() {
    assert_eq!(timestamp_display(0), "1970-01-01 00:00");
    assert_eq!(timestamp_display(1_600_000_000), "2020-09-13 12:26");
    assert_eq!(timestamp_display(86_399), "1970-01-01 23:59");
}

#[test]
fn type_labels_round_trip() {
    for t in [
        FieldType::U8,
        FieldType::U16,
        FieldType::U32,
        FieldType::U64,
        FieldType::I8,
        FieldType::I16,
        FieldType::I32,
        FieldType::I64,
        FieldType::F32,
        FieldType::F64,
    ] {
        assert_eq!(parse_type(type_label(t)), Some(t));
    }
    assert_eq!(parse_type("u128"), None);
    assert_eq!(parse_type(""), None);
}

#[test]
fn error_descriptions() {
    assert_eq!(DbError::NotFound.describe(), "not found");
    assert_eq!(DbError::MissingField.describe(), "missing field");
    assert_eq!(DbError::TypeMismatch.describe(), "type mismatch");
    assert_eq!(DbError::Truncated.describe(), "truncated column");
    assert_eq!(DbError::Timeout.describe(), "publish timeout");
    assert_eq!(DbError::StoreUnavailable.describe(), "store unavailable");
}
