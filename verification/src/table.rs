//! The root document manager and the table scanner: table creation, the
//! read-modify-publish-collect insert protocol, and lockstep column
//! scans.

use vstd::prelude::*;

use crate::codec::{
    spec_col_cell, spec_col_count, spec_encodable, spec_encode, spec_width, width, CellValue,
    FieldType, RecordValue,
};
use crate::docs::{
    assoc_view, spec_assoc, ColumnBlock, ColumnV, Doc, DocV, RootDoc, RootV, SchemaDoc, SchemaV,
};
use crate::errors::DbError;
use crate::store::{ContentStore, NamingService};

verus! {

/// The default bound, in seconds, on the naming-service publish step.
pub const DEFAULT_PUBLISH_TIMEOUT_SECS: u64 = 50;

/// The reserved field name whose value is synthesized at insert time when
/// absent, and relabeled for display at scan time.
pub open spec fn spec_timestamp_key() -> Seq<char> {
    "_timestamp"@
}

/// The reserved timestamp field name.
pub fn timestamp_key() -> (s: String)
    ensures
        s@ == spec_timestamp_key(),
{
    "_timestamp".to_owned()
}

/// The record value a synthesized timestamp carries: the current Unix
/// epoch second count, as an unsigned number.
pub open spec fn spec_ts_value(now: u64) -> RecordValue {
    RecordValue {
        uint: Some(now),
        int: if now <= i64::MAX {
            Some(now as i64)
        } else {
            None
        },
        f32_bits: None,
        f64_bits: None,
    }
}

/// The record value used for a declared field: the record's own, or the
/// synthesized current time for an absent `_timestamp`.
pub open spec fn effective_value(
    rec: Seq<(Seq<char>, RecordValue)>,
    name: Seq<char>,
    now: u64,
) -> Option<RecordValue> {
    match spec_assoc(rec, name) {
        Some(v) => Some(v),
        None => if name == spec_timestamp_key() {
            Some(spec_ts_value(now))
        } else {
            None
        },
    }
}

/// The published table a state shows under `key`: the current root id,
/// the root document, and its schema — `None` where any link is broken.
pub open spec fn table_view(
    content: Map<u64, DocV>,
    names: Map<Seq<char>, u64>,
    key: Seq<char>,
) -> Option<(u64, RootV, SchemaV)> {
    if !names.dom().contains(key) {
        None
    } else {
        let rid = names[key];
        if content.dom().contains(rid) && content[rid] is Root {
            let root = content[rid]->Root_0;
            if content.dom().contains(root.schema_id) && content[root.schema_id] is Schema {
                Some((rid, root, content[root.schema_id]->Schema_0))
            } else {
                None
            }
        } else {
            None
        }
    }
}

/// The root document of a table that holds no data yet: every column at
/// the empty sentinel.
pub open spec fn empty_root_of(schema_id: u64, s: SchemaV) -> RootV {
    RootV {
        schema_id,
        columns: s.fields.map_values(|p: (Seq<char>, FieldType)| (p.0, None::<u64>)),
    }
}

/// What a successful create leaves behind: the schema document and an
/// empty root stored, and the root published under the key.
pub open spec fn created_table(
    oc: Map<u64, DocV>,
    on: Map<Seq<char>, u64>,
    nc: Map<u64, DocV>,
    nn: Map<Seq<char>, u64>,
    key: Seq<char>,
    schema: SchemaV,
    schema_id: u64,
    root_id: u64,
) -> bool {
    &&& nc == oc.insert(schema_id, DocV::Schema(schema)).insert(
        root_id,
        DocV::Root(empty_root_of(schema_id, schema)),
    )
    &&& nn == on.insert(key, root_id)
}

/// Fetches the current root and schema of the table under `key`.
fn fetch_table<C: ContentStore, N: NamingService>(cs: &C, ns: &N, key: &str) -> (r: Result<
    (u64, RootDoc, SchemaDoc),
    DbError,
>)
    ensures
        match r {
            Ok(t) => table_view(cs.content(), ns.names(), key@) == Some((t.0, t.1@, t.2@)),
            Err(e) => {
                ||| e == DbError::StoreUnavailable
                ||| (e == DbError::NotFound && table_view(cs.content(), ns.names(), key@) is None)
            },
        },
{
    let root_id = match ns.resolve(key) {
        Ok(id) => id,
        Err(e) => {
            return Err(e);
        },
    };
    let root = match cs.get(root_id) {
        Ok(Doc::Root(root)) => root,
        Ok(_) => {
            return Err(DbError::NotFound);
        },
        Err(e) => {
            return Err(e);
        },
    };
    let schema = match cs.get(root.schema_id) {
        Ok(Doc::Schema(schema)) => schema,
        Ok(_) => {
            return Err(DbError::NotFound);
        },
        Err(e) => {
            return Err(e);
        },
    };
    Ok((root_id, root, schema))
}

/// Creates a table: stores the schema document, stores a root document
/// with the empty sentinel for every declared field, and publishes that
/// root under `key`. On failure no partial effect is visible to readers:
/// the naming service is left untouched.
pub fn create_table<C: ContentStore, N: NamingService>(
    cs: &mut C,
    ns: &mut N,
    key: &str,
    schema: SchemaDoc,
    timeout_secs: u64,
) -> (r: Result<u64, DbError>)
    ensures
        match r {
            Ok(root_id) => exists|schema_id: u64|
                created_table(
                    old(cs).content(),
                    old(ns).names(),
                    final(cs).content(),
                    final(ns).names(),
                    key@,
                    schema@,
                    schema_id,
                    root_id,
                ),
            Err(e) => {
                &&& (e == DbError::StoreUnavailable || e == DbError::Timeout)
                &&& old(cs).content().submap_of(final(cs).content())
                &&& final(ns).names() == old(ns).names()
            },
        },
{
    let ghost sv = schema@;
    let mut columns: Vec<(String, Option<u64>)> = Vec::new();
    let n = schema.fields.len();
    let mut i: usize = 0;
    while i < n
        invariant
            i <= n,
            n == schema.fields@.len(),
            columns@.len() == i,
            forall|j: int|
                0 <= j < i ==> columns@[j].0@ == schema.fields@[j].0@ && columns@[j].1 is None,
        decreases n - i,
    {
        let name = schema.fields[i].0.clone();
        columns.push((name, None));
        i = i + 1;
    }
    proof {
        assert(assoc_view(columns) =~= empty_root_of(0, sv).columns);
    }
    let schema_id = match cs.put(Doc::Schema(schema)) {
        Ok(id) => id,
        Err(e) => {
            proof {
                lemma_submap_refl(old(cs).content());
            }
            return Err(e);
        },
    };
    let root = RootDoc { schema_id, columns };
    proof {
        assert(root@ == empty_root_of(schema_id, sv)) by {
            assert(assoc_view(root.columns) =~= empty_root_of(schema_id, sv).columns);
        }
    }
    let ghost mid1 = cs.content();
    let root_id = match cs.put(Doc::Root(root)) {
        Ok(id) => id,
        Err(e) => {
            proof {
                lemma_extends_insert(old(cs).content(), schema_id, DocV::Schema(sv));
            }
            return Err(e);
        },
    };
    proof {
        lemma_extends_insert(old(cs).content(), schema_id, DocV::Schema(sv));
        lemma_extends_insert(mid1, root_id, DocV::Root(empty_root_of(schema_id, sv)));
        vstd::map_lib::lemma_submap_of_trans(old(cs).content(), mid1, cs.content());
    }
    match ns.publish(key, root_id, timeout_secs) {
        Ok(u) => {
            proof {
                let sid = schema_id;
                assert(created_table(
                    old(cs).content(),
                    old(ns).names(),
                    final(cs).content(),
                    final(ns).names(),
                    key@,
                    sv,
                    sid,
                    root_id,
                ));
            }
            Ok(root_id)
        },
        Err(e) => Err(e),
    }
}

proof fn lemma_submap_refl(m: Map<u64, DocV>)
    ensures
        m.submap_of(m),
{
}

/// The stored bytes of a field's current column: empty where the head is
/// the empty sentinel, or the root does not list the field.
pub open spec fn old_col_data(
    content: Map<u64, DocV>,
    cols: Seq<(Seq<char>, Option<u64>)>,
    name: Seq<char>,
) -> Seq<u8> {
    match spec_assoc(cols, name) {
        Some(head) => match head {
            Some(h) => if content.dom().contains(h) && content[h] is Column {
                content[h]->Column_0.data
            } else {
                Seq::empty()
            },
            None => Seq::empty(),
        },
        None => Seq::empty(),
    }
}

/// Whether a field's head link, if it has one, leads to a column block.
pub open spec fn head_ok(
    content: Map<u64, DocV>,
    cols: Seq<(Seq<char>, Option<u64>)>,
    name: Seq<char>,
) -> bool {
    match spec_assoc(cols, name) {
        Some(head) => match head {
            Some(h) => content.dom().contains(h) && content[h] is Column,
            None => true,
        },
        None => true,
    }
}

/// Whether the state under `key` lets an insert read everything it
/// needs: a published root, its schema, and a sound head link for every
/// declared field.
pub open spec fn insert_linkage_ok(
    content: Map<u64, DocV>,
    names: Map<Seq<char>, u64>,
    key: Seq<char>,
) -> bool {
    match table_view(content, names, key) {
        Some(t) => forall|i: int|
            0 <= i < t.2.fields.len() ==> #[trigger] head_ok(content, t.1.columns, t.2.fields[i].0),
        None => false,
    }
}

/// The schema of the table under `key`; meaningful only where
/// `table_view` is `Some`.
pub open spec fn table_schema(
    content: Map<u64, DocV>,
    names: Map<Seq<char>, u64>,
    key: Seq<char>,
) -> SchemaV {
    (table_view(content, names, key)->0).2
}

/// Whether one declared field finds an encodable value in the record.
pub open spec fn field_value_ok(
    field: (Seq<char>, FieldType),
    rec: Seq<(Seq<char>, RecordValue)>,
    now: u64,
) -> bool {
    &&& effective_value(rec, field.0, now) is Some
    &&& spec_encodable(field.1, effective_value(rec, field.0, now)->0)
}

/// Whether the record offers an encodable value for every declared
/// field.
pub open spec fn insert_values_ok(
    schema: SchemaV,
    rec: Seq<(Seq<char>, RecordValue)>,
    now: u64,
) -> bool {
    forall|i: int|
        0 <= i < schema.fields.len() ==> #[trigger] field_value_ok(schema.fields[i], rec, now)
}

/// The content ids a root document references: itself and its non-empty
/// column heads. These, and only these, are superseded by a successful
/// insert.
pub open spec fn old_refs(old_root_id: u64, cols: Seq<(Seq<char>, Option<u64>)>) -> Set<u64> {
    Set::new(
        |id: u64|
            id == old_root_id || exists|i: int|
                0 <= i < cols.len() && (#[trigger] cols[i]).1 == Some(id),
    )
}

/// The root document a successful insert stores: the same schema id, and
/// each field's column head moved to its new block.
pub open spec fn new_root_v(schema: SchemaV, schema_id: u64, ids: Seq<u64>) -> RootV {
    RootV {
        schema_id,
        columns: Seq::new(schema.fields.len(), |i: int| (schema.fields[i].0, Some(ids[i]))),
    }
}

/// The column block a successful insert stores for one field: the
/// field's whole previous buffer with the encoded value appended, and an
/// empty predecessor link.
pub open spec fn new_block_v(
    oc: Map<u64, DocV>,
    old_cols: Seq<(Seq<char>, Option<u64>)>,
    field: (Seq<char>, FieldType),
    rec: Seq<(Seq<char>, RecordValue)>,
    now: u64,
) -> ColumnV {
    ColumnV {
        data: old_col_data(oc, old_cols, field.0) + spec_encode(
            field.1,
            effective_value(rec, field.0, now)->0,
        ),
        next: None,
    }
}

/// The witnesses of a committed insert: what was read, the ids the new
/// blocks were stored under, and the content-store state at the moment
/// of the publish, before garbage collection.
pub struct InsertWitness {
    pub old_root_id: u64,
    pub old_root: RootV,
    pub schema: SchemaV,
    pub new_ids: Seq<u64>,
    pub mid: Map<u64, DocV>,
}

/// What a successful insert leaves behind, given its witnesses.
///
/// The old state showed a well-linked table; every declared field found
/// an encodable value; the store grew by one block per field, each the
/// field's previous buffer plus the encoded value, and by a root listing
/// them; the key now points at that root; and the final content differs
/// from the pre-collection state `mid` only by deletions among the
/// previously-referenced ids.
pub open spec fn insert_committed_w(
    oc: Map<u64, DocV>,
    on: Map<Seq<char>, u64>,
    nc: Map<u64, DocV>,
    nn: Map<Seq<char>, u64>,
    key: Seq<char>,
    rec: Seq<(Seq<char>, RecordValue)>,
    now: u64,
    new_root_id: u64,
    w: InsertWitness,
) -> bool {
    &&& on.dom().contains(key) && on[key] == w.old_root_id
    &&& oc.dom().contains(w.old_root_id) && oc[w.old_root_id] == DocV::Root(w.old_root)
    &&& oc.dom().contains(w.old_root.schema_id) && oc[w.old_root.schema_id] == DocV::Schema(
        w.schema,
    )
    &&& insert_linkage_ok(oc, on, key)
    &&& insert_values_ok(w.schema, rec, now)
    &&& w.new_ids.len() == w.schema.fields.len()
    &&& oc.submap_of(w.mid)
    &&& forall|i: int| 0 <= i < w.new_ids.len() ==> w.mid.dom().contains(#[trigger] w.new_ids[i])
    &&& forall|i: int|
        0 <= i < w.new_ids.len() ==> w.mid[#[trigger] w.new_ids[i]] == DocV::Column(
            new_block_v(oc, w.old_root.columns, w.schema.fields[i], rec, now),
        )
    &&& w.mid.dom().contains(new_root_id)
    &&& w.mid[new_root_id] == DocV::Root(new_root_v(w.schema, w.old_root.schema_id, w.new_ids))
    &&& nn == on.insert(key, new_root_id)
    &&& forall|id: u64|
        #[trigger] nc.dom().contains(id) ==> w.mid.dom().contains(id) && nc[id] == w.mid[id]
    &&& forall|id: u64|
        w.mid.dom().contains(id) && !old_refs(w.old_root_id, w.old_root.columns).contains(id)
            ==> #[trigger] nc.dom().contains(id)
}

/// What a successful insert leaves behind, for some witnesses.
pub open spec fn insert_committed(
    oc: Map<u64, DocV>,
    on: Map<Seq<char>, u64>,
    nc: Map<u64, DocV>,
    nn: Map<Seq<char>, u64>,
    key: Seq<char>,
    rec: Seq<(Seq<char>, RecordValue)>,
    now: u64,
    new_root_id: u64,
) -> bool {
    exists|w: InsertWitness| insert_committed_w(oc, on, nc, nn, key, rec, now, new_root_id, w)
}

/// A content-store put extends the state: every existing binding
/// survives, because an id in use is only ever rebound to its own
/// content.
proof fn lemma_put_preserves(pre: Map<u64, DocV>, post: Map<u64, DocV>, id: u64, d: DocV)
    requires
        post == pre.insert(id, d),
        pre.dom().contains(id) ==> pre[id] == d,
    ensures
        pre.submap_of(post),
        forall|k: u64| #[trigger] pre.dom().contains(k) ==> post.dom().contains(k) && post[k]
            == pre[k],
{
}

/// Inserts one record into the table under `key`.
///
/// The protocol: resolve the current root, fetch it and its schema; for
/// each declared field, in schema order, take the field's whole stored
/// buffer (empty where the head is the empty sentinel) and append the
/// value encoded at the declared type — an absent `_timestamp` is
/// synthesized from `now_unix`; store each new buffer as a new column
/// block and store a new root listing them; publish the new root, bounded
/// by `timeout_secs`; on success, best-effort delete the superseded root
/// and column blocks and return the new root's id.
///
/// On any failure nothing is deleted: the previously published pointer
/// remains the visible committed state, and blocks already written stay
/// as unreachable garbage.
#[verifier::loop_isolation(false)]
pub fn insert<C: ContentStore, N: NamingService>(
    cs: &mut C,
    ns: &mut N,
    key: &str,
    record: &Vec<(String, RecordValue)>,
    now_unix: u64,
    timeout_secs: u64,
) -> (r: Result<u64, DbError>)
    ensures
        match r {
            Ok(new_root_id) => insert_committed(
                old(cs).content(),
                old(ns).names(),
                final(cs).content(),
                final(ns).names(),
                key@,
                assoc_view(*record),
                now_unix,
                new_root_id,
            ),
            Err(e) => {
                &&& old(cs).content().submap_of(final(cs).content())
                &&& final(ns).names() == old(ns).names()
                &&& (e == DbError::NotFound ==> !insert_linkage_ok(
                    old(cs).content(),
                    old(ns).names(),
                    key@,
                ))
                &&& (e == DbError::MissingField || e == DbError::TypeMismatch ==> {
                    &&& table_view(old(cs).content(), old(ns).names(), key@) is Some
                    &&& !insert_values_ok(
                        table_schema(old(cs).content(), old(ns).names(), key@),
                        assoc_view(*record),
                        now_unix,
                    )
                })
                &&& (insert_linkage_ok(old(cs).content(), old(ns).names(), key@)
                    && insert_values_ok(
                    table_schema(old(cs).content(), old(ns).names(), key@),
                    assoc_view(*record),
                    now_unix,
                ) ==> e == DbError::StoreUnavailable || e == DbError::Timeout)
            },
        },
{
    let ghost oc = old(cs).content();
    let ghost on = old(ns).names();
    let ghost rec = assoc_view(*record);
    proof {
        lemma_submap_refl(oc);
    }
    let fetched = match fetch_table(cs, ns, key) {
        Ok(t) => t,
        Err(e) => {
            return Err(e);
        },
    };
    let old_root_id = fetched.0;
    let old_root = fetched.1;
    let schema = fetched.2;
    let nf = schema.fields.len();

    // Read phase: every field's previous buffer, with the new value
    // already appended.
    let mut buffers: Vec<Vec<u8>> = Vec::new();
    let mut old_heads: Vec<u64> = Vec::new();
    let mut i: usize = 0;
    while i < nf
        invariant
            i <= nf,
            nf == schema.fields@.len(),
            cs.content() == oc,
            ns.names() == on,
            rec == assoc_view(*record),
            table_view(oc, on, key@) == Some((old_root_id, old_root@, schema@)),
            buffers@.len() == i,
            forall|j: int|
                0 <= j < i ==> #[trigger] head_ok(oc, old_root@.columns, schema@.fields[j].0),
            forall|j: int| 0 <= j < i ==> #[trigger] field_value_ok(schema@.fields[j], rec, now_unix),
            forall|j: int|
                0 <= j < i ==> (#[trigger] buffers@[j])@ == new_block_v(
                    oc,
                    old_root@.columns,
                    schema@.fields[j],
                    rec,
                    now_unix,
                ).data,
            forall|j: int|
                0 <= j < old_heads@.len() ==> old_refs(old_root_id, old_root@.columns).contains(
                    #[trigger] old_heads@[j],
                ),
        decreases nf - i,
    {
        proof {
            assert(schema@.fields[i as int] == (schema.fields@[i as int].0@, schema.fields@[i as int].1));
        }
        let t: FieldType = schema.fields[i].1;
        let head: Option<u64> = match crate::docs::assoc_get(&old_root.columns, &schema.fields[i].0)
         {
            Some(h) => h,
            None => None,
        };
        let mut data: Vec<u8> = match head {
            Some(h) => {
                old_heads.push(h);
                proof {
                    let name = schema@.fields[i as int].0;
                    crate::docs::lemma_assoc_some_index(old_root@.columns, name);
                    let idx = choose|j: int|
                        0 <= j < old_root@.columns.len() && #[trigger] old_root@.columns[j] == (
                            name,
                            spec_assoc(old_root@.columns, name)->0,
                        );
                    assert((old_root@.columns[idx]).1 == Some(h));
                    assert(old_refs(old_root_id, old_root@.columns).contains(h));
                }
                match cs.get(h) {
                    Ok(Doc::Column(b)) => b.data,
                    Ok(_) => {
                        proof {
                            assert(!insert_linkage_ok(oc, on, key@)) by {
                                let t = table_view(oc, on, key@)->0;
                                assert(t.1 == old_root@ && t.2 == schema@);
                                assert(!head_ok(oc, t.1.columns, t.2.fields[i as int].0));
                            }
                        }
                        return Err(DbError::NotFound);
                    },
                    Err(e) => {
                        proof {
                            if e == DbError::NotFound {
                                assert(!insert_linkage_ok(oc, on, key@)) by {
                                    let t = table_view(oc, on, key@)->0;
                                    assert(t.1 == old_root@ && t.2 == schema@);
                                    assert(!head_ok(oc, t.1.columns, t.2.fields[i as int].0));
                                }
                            }
                        }
                        return Err(e);
                    },
                }
            },
            None => Vec::new(),
        };
        let v: RecordValue = match crate::docs::assoc_get(record, &schema.fields[i].0) {
            Some(v) => v,
            None => {
                let ts = timestamp_key();
                if schema.fields[i].0 == ts {
                    let synthesized = RecordValue::of_uint(now_unix);
                    proof {
                        assert(synthesized == spec_ts_value(now_unix));
                    }
                    synthesized
                } else {
                    proof {
                        assert(effective_value(rec, schema@.fields[i as int].0, now_unix) is None);
                        assert(!field_value_ok(schema@.fields[i as int], rec, now_unix));
                    }
                    return Err(DbError::MissingField);
                }
            },
        };
        proof {
            assert(effective_value(rec, schema@.fields[i as int].0, now_unix) == Some(v));
            assert(data@ == old_col_data(oc, old_root@.columns, schema@.fields[i as int].0));
        }
        match crate::codec::encode(t, &v, &mut data) {
            Ok(u) => {},
            Err(e) => {
                proof {
                    assert(!field_value_ok(schema@.fields[i as int], rec, now_unix));
                }
                return Err(e);
            },
        }
        buffers.push(data);
        i = i + 1;
    }

    // Write phase: store the new blocks, then the new root.
    let ghost all_buffers = buffers@;
    let mut new_cols: Vec<(String, Option<u64>)> = Vec::new();
    let ghost mut ids: Seq<u64> = Seq::empty();
    let mut k: usize = 0;
    while k < nf
        invariant
            k <= nf,
            nf == schema.fields@.len(),
            ns.names() == on,
            rec == assoc_view(*record),
            table_view(oc, on, key@) == Some((old_root_id, old_root@, schema@)),
            insert_linkage_ok(oc, on, key@),
            insert_values_ok(schema@, rec, now_unix),
            all_buffers.len() == nf,
            buffers@ == all_buffers.subrange(k as int, nf as int),
            forall|j: int|
                0 <= j < nf ==> (#[trigger] all_buffers[j])@ == new_block_v(
                    oc,
                    old_root@.columns,
                    schema@.fields[j],
                    rec,
                    now_unix,
                ).data,
            oc.submap_of(cs.content()),
            ids.len() == k,
            new_cols@.len() == k,
            forall|j: int|
                0 <= j < k ==> cs.content().dom().contains(#[trigger] ids[j]) && cs.content()[ids[j]]
                    == DocV::Column(
                    new_block_v(oc, old_root@.columns, schema@.fields[j], rec, now_unix),
                ),
            forall|j: int|
                0 <= j < k ==> (#[trigger] new_cols@[j]).0@ == schema@.fields[j].0
                    && new_cols@[j].1 == Some(ids[j]),
            forall|j: int|
                0 <= j < old_heads@.len() ==> old_refs(old_root_id, old_root@.columns).contains(
                    #[trigger] old_heads@[j],
                ),
        decreases nf - k,
    {
        let buf = buffers.remove(0);
        proof {
            assert(buf == all_buffers[k as int]);
            assert(buffers@ =~= all_buffers.subrange(k + 1, nf as int));
        }
        let name2 = schema.fields[k].0.clone();
        let block = ColumnBlock { data: buf, next: None };
        proof {
            assert(block@ == new_block_v(oc, old_root@.columns, schema@.fields[k as int], rec, now_unix));
        }
        let ghost pre = cs.content();
        let id = match cs.put(Doc::Column(block)) {
            Ok(id) => id,
            Err(e) => {
                return Err(e);
            },
        };
        proof {
            lemma_put_preserves(
                pre,
                cs.content(),
                id,
                DocV::Column(new_block_v(oc, old_root@.columns, schema@.fields[k as int], rec, now_unix)),
            );
            vstd::map_lib::lemma_submap_of_trans(oc, pre, cs.content());
            ids = ids.push(id);
        }
        new_cols.push((name2, Some(id)));
        k = k + 1;
    }
    let new_root = RootDoc { schema_id: old_root.schema_id, columns: new_cols };
    proof {
        assert(new_root@.columns =~= new_root_v(schema@, old_root@.schema_id, ids).columns);
        assert(new_root@ == new_root_v(schema@, old_root@.schema_id, ids));
    }
    let ghost pre_root = cs.content();
    let new_root_id = match cs.put(Doc::Root(new_root)) {
        Ok(id) => id,
        Err(e) => {
            return Err(e);
        },
    };
    proof {
        lemma_put_preserves(
            pre_root,
            cs.content(),
            new_root_id,
            DocV::Root(new_root_v(schema@, old_root@.schema_id, ids)),
        );
        vstd::map_lib::lemma_submap_of_trans(oc, pre_root, cs.content());
    }
    let ghost mid = cs.content();
    match ns.publish(key, new_root_id, timeout_secs) {
        Ok(u) => {},
        Err(e) => {
            return Err(e);
        },
    }

    // Collect phase: best-effort deletion of the superseded root and
    // column blocks.
    let ghost w = InsertWitness {
        old_root_id,
        old_root: old_root@,
        schema: schema@,
        new_ids: ids,
        mid,
    };
    let ghost orefs = old_refs(old_root_id, old_root@.columns);
    let unused = cs.delete(old_root_id);
    proof {
        assert(orefs.contains(old_root_id));
        assert(forall|id2: u64| #[trigger]
            cs.content().dom().contains(id2) ==> mid.dom().contains(id2) && cs.content()[id2]
                == mid[id2]);
    }
    let mut g: usize = 0;
    while g < old_heads.len()
        invariant
            ns.names() == on.insert(key@, new_root_id),
            forall|j: int| 0 <= j < old_heads@.len() ==> orefs.contains(#[trigger] old_heads@[j]),
            forall|id2: u64| #[trigger]
                cs.content().dom().contains(id2) ==> mid.dom().contains(id2) && cs.content()[id2]
                    == mid[id2],
            forall|id2: u64|
                mid.dom().contains(id2) && !orefs.contains(id2) ==> #[trigger] cs.content().dom().contains(
                    id2,
                ),
        decreases old_heads.len() - g,
    {
        let unused2 = cs.delete(old_heads[g]);
        g = g + 1;
    }
    proof {
        assert(insert_committed_w(
            oc,
            on,
            cs.content(),
            ns.names(),
            key@,
            rec,
            now_unix,
            new_root_id,
            w,
        ));
        assert(insert_committed(oc, on, cs.content(), ns.names(), key@, rec, now_unix, new_root_id));
    }
    Ok(new_root_id)
}

/// A map extends into itself with one entry inserted, provided any
/// existing binding of that key already holds that value — the shape the
/// content store's put contract guarantees.
proof fn lemma_extends_insert(m: Map<u64, DocV>, k: u64, v: DocV)
    requires
        m.dom().contains(k) ==> m[k] == v,
    ensures
        m.submap_of(m.insert(k, v)),
{
}

/// The view of a list of field names.
pub open spec fn names_view(fields: Vec<String>) -> Seq<Seq<char>> {
    fields@.map_values(|f: String| f@)
}

/// The view of a list of rows.
pub open spec fn rows_view(rows: Vec<Vec<CellValue>>) -> Seq<Seq<CellValue>> {
    rows@.map_values(|row: Vec<CellValue>| row@)
}

/// The requested column of a select: its declared type and stored
/// bytes — `None` where the field is undeclared, its head is the empty
/// sentinel, or the head link is broken.
pub open spec fn sel_column(
    content: Map<u64, DocV>,
    root: RootV,
    schema: SchemaV,
    name: Seq<char>,
) -> Option<(FieldType, Seq<u8>)> {
    match spec_assoc(schema.fields, name) {
        Some(t) => match spec_assoc(root.columns, name) {
            Some(head) => match head {
                Some(h) => if content.dom().contains(h) && content[h] is Column {
                    Some((t, content[h]->Column_0.data))
                } else {
                    None
                },
                None => None,
            },
            None => None,
        },
        None => None,
    }
}

/// Whether every requested column can be read.
pub open spec fn sel_columns_ok(
    content: Map<u64, DocV>,
    root: RootV,
    schema: SchemaV,
    fields: Seq<Seq<char>>,
) -> bool {
    forall|c: int|
        0 <= c < fields.len() ==> #[trigger] sel_column(content, root, schema, fields[c]) is Some
}

/// The requested columns, in request order.
pub open spec fn sel_cols(
    content: Map<u64, DocV>,
    root: RootV,
    schema: SchemaV,
    fields: Seq<Seq<char>>,
) -> Seq<(FieldType, Seq<u8>)> {
    Seq::new(fields.len(), |c: int| sel_column(content, root, schema, fields[c])->0)
}

/// The requested columns of the table under `key`; meaningful only
/// where the table resolves.
pub open spec fn table_sel_cols(
    content: Map<u64, DocV>,
    names: Map<Seq<char>, u64>,
    key: Seq<char>,
    fields: Seq<Seq<char>>,
) -> Seq<(FieldType, Seq<u8>)> {
    sel_cols(
        content,
        (table_view(content, names, key)->0).1,
        (table_view(content, names, key)->0).2,
        fields,
    )
}

/// Whether a select under `key` can read everything it needs: a
/// published root, its schema, and every requested column present.
pub open spec fn select_readable(
    content: Map<u64, DocV>,
    names: Map<Seq<char>, u64>,
    key: Seq<char>,
    fields: Seq<Seq<char>>,
) -> bool {
    &&& table_view(content, names, key) is Some
    &&& sel_columns_ok(
        content,
        (table_view(content, names, key)->0).1,
        (table_view(content, names, key)->0).2,
        fields,
    )
}

/// Whether every requested field is declared by the table's schema.
pub open spec fn select_declared(
    content: Map<u64, DocV>,
    names: Map<Seq<char>, u64>,
    key: Seq<char>,
    fields: Seq<Seq<char>>,
) -> bool {
    forall|c: int|
        0 <= c < fields.len() ==> #[trigger] spec_assoc(
            (table_view(content, names, key)->0).2.fields,
            fields[c],
        ) is Some
}

/// Whether every requested column's buffer ends on a value boundary.
pub open spec fn select_aligned(
    content: Map<u64, DocV>,
    names: Map<Seq<char>, u64>,
    key: Seq<char>,
    fields: Seq<Seq<char>>,
) -> bool {
    forall|c: int|
        0 <= c < fields.len() ==> (#[trigger] table_sel_cols(content, names, key, fields)[c]).1.len()
            % spec_width(table_sel_cols(content, names, key, fields)[c].0) == 0
}

/// The display label of one requested field: `_timestamp` is relabeled.
pub open spec fn spec_header_of(name: Seq<char>) -> Seq<char> {
    if name == spec_timestamp_key() {
        "timestamp (UTC)"@
    } else {
        name
    }
}

/// The outcome of a select: one header entry per requested field, and
/// the emitted rows in insertion order.
pub struct QueryOutput {
    pub header: Vec<String>,
    pub rows: Vec<Vec<CellValue>>,
}

/// What a returned table holds.
///
/// Rows are emitted in lockstep from row zero; every emitted row is
/// complete; row `r`, column `c` is the decoded value at row `r` of
/// requested column `c`. Emission stops at the first exhausted column,
/// or at `limit` rows where a limit is given — `limit` is the maximum
/// number of rows returned, counted from the first row.
pub open spec fn select_post(
    content: Map<u64, DocV>,
    names: Map<Seq<char>, u64>,
    key: Seq<char>,
    fields: Seq<Seq<char>>,
    limit: Option<usize>,
    header: Seq<Seq<char>>,
    rows: Seq<Seq<CellValue>>,
) -> bool {
    &&& table_view(content, names, key) is Some
    &&& select_readable(content, names, key, fields)
    &&& {
        let cols = table_sel_cols(content, names, key, fields);
        &&& header.len() == fields.len()
        &&& (forall|c: int| 0 <= c < fields.len() ==> #[trigger] header[c] == spec_header_of(
            fields[c],
        ))
        &&& (forall|c: int|
            0 <= c < cols.len() ==> rows.len() <= spec_col_count(
                (#[trigger] cols[c]).0,
                cols[c].1,
            ))
        &&& (match limit {
            Some(l) => rows.len() <= l && (rows.len() < l && fields.len() > 0 ==> exists|c: int|
                0 <= c < cols.len() && spec_col_count((#[trigger] cols[c]).0, cols[c].1)
                    == rows.len()),
            None => fields.len() > 0 ==> exists|c: int|
                0 <= c < cols.len() && spec_col_count((#[trigger] cols[c]).0, cols[c].1)
                    == rows.len(),
        })
        &&& (fields.len() == 0 ==> rows.len() == 0)
        &&& (forall|r: int| 0 <= r < rows.len() ==> (#[trigger] rows[r]).len() == fields.len())
        &&& (forall|r: int, c: int|
            0 <= r < rows.len() && 0 <= c < cols.len() ==> #[trigger] rows[r][c] == spec_col_cell(
                cols[c].0,
                cols[c].1,
                r,
            ))
    }
}

/// Scans the table under `key`: resolves the current root, reads the
/// requested columns, and decodes them in lockstep into rows.
///
/// Emission stops cleanly at the first column with no bytes left; a
/// column that ends mid-value raises `Truncated` instead, discarding
/// that row and all subsequent ones. A `limit` bounds the number of
/// rows returned, counted from the first row. The header relabels
/// `_timestamp` for display.
#[verifier::loop_isolation(false)]
pub fn select<C: ContentStore, N: NamingService>(
    cs: &C,
    ns: &N,
    key: &str,
    fields: &Vec<String>,
    limit: Option<usize>,
) -> (r: Result<QueryOutput, DbError>)
    ensures
        match r {
            Ok(out) => select_post(
                cs.content(),
                ns.names(),
                key@,
                names_view(*fields),
                limit,
                names_view(out.header),
                rows_view(out.rows),
            ),
            Err(e) => {
                &&& (e == DbError::MissingField ==> table_view(cs.content(), ns.names(), key@)
                    is Some && !select_declared(cs.content(), ns.names(), key@, names_view(*fields)))
                &&& (e == DbError::NotFound ==> !select_readable(
                    cs.content(),
                    ns.names(),
                    key@,
                    names_view(*fields),
                ))
                &&& (e == DbError::Truncated ==> select_readable(
                    cs.content(),
                    ns.names(),
                    key@,
                    names_view(*fields),
                ) && !select_aligned(cs.content(), ns.names(), key@, names_view(*fields)))
                &&& (select_readable(cs.content(), ns.names(), key@, names_view(*fields))
                    && select_aligned(cs.content(), ns.names(), key@, names_view(*fields)) ==> e
                    == DbError::StoreUnavailable)
            },
        },
{
    let ghost oc = cs.content();
    let ghost on = ns.names();
    let ghost names = names_view(*fields);
    let fetched = match fetch_table(cs, ns, key) {
        Ok(t) => t,
        Err(e) => {
            return Err(e);
        },
    };
    let root_id = fetched.0;
    let root = fetched.1;
    let schema = fetched.2;
    let k = fields.len();

    let mut colv: Vec<(FieldType, Vec<u8>)> = Vec::new();
    let mut header: Vec<String> = Vec::new();
    let ts = timestamp_key();
    let mut c: usize = 0;
    while c < k
        invariant
            c <= k,
            colv@.len() == c,
            header@.len() == c,
            forall|j: int| 0 <= j < c ==> #[trigger] sel_column(oc, root@, schema@, names[j]) is Some,
            forall|j: int|
                0 <= j < c ==> ((#[trigger] colv@[j]).0, colv@[j].1@) == sel_column(
                    oc,
                    root@,
                    schema@,
                    names[j],
                )->0,
            forall|j: int| 0 <= j < c ==> (#[trigger] header@[j])@ == spec_header_of(names[j]),
        decreases k - c,
    {
        proof {
            assert(names[c as int] == fields@[c as int]@);
        }
        let t: FieldType = match crate::docs::assoc_get(&schema.fields, &fields[c]) {
            Some(t) => t,
            None => {
                proof {
                    assert(!select_declared(oc, on, key@, names)) by {
                        assert(spec_assoc(
                            (table_view(oc, on, key@)->0).2.fields,
                            names[c as int],
                        ) is None);
                    }
                }
                return Err(DbError::MissingField);
            },
        };
        let head: Option<u64> = match crate::docs::assoc_get(&root.columns, &fields[c]) {
            Some(h) => h,
            None => None,
        };
        let data: Vec<u8> = match head {
            Some(h) => {
                match cs.get(h) {
                    Ok(Doc::Column(b)) => b.data,
                    Ok(_) => {
                        proof {
                            assert(!select_readable(oc, on, key@, names)) by {
                                assert(sel_column(oc, root@, schema@, names[c as int]) is None);
                            }
                        }
                        return Err(DbError::NotFound);
                    },
                    Err(e) => {
                        proof {
                            if e == DbError::NotFound {
                                assert(!select_readable(oc, on, key@, names)) by {
                                    assert(sel_column(oc, root@, schema@, names[c as int]) is None);
                                }
                            }
                        }
                        return Err(e);
                    },
                }
            },
            None => {
                proof {
                    assert(!select_readable(oc, on, key@, names)) by {
                        assert(sel_column(oc, root@, schema@, names[c as int]) is None);
                    }
                }
                return Err(DbError::NotFound);
            },
        };
        if fields[c] == ts {
            header.push("timestamp (UTC)".to_owned());
        } else {
            header.push(fields[c].clone());
        }
        colv.push((t, data));
        c = c + 1;
    }

    let ghost cols = sel_cols(oc, root@, schema@, names);
    proof {
        assert(cols =~= table_sel_cols(oc, on, key@, names));
        assert(cols.len() == k);
        assert(forall|j: int|
            0 <= j < k ==> (#[trigger] cols[j]) == ((colv@[j].0, colv@[j].1@)));
    }
    let mut rows: Vec<Vec<CellValue>> = Vec::new();
    if k == 0 {
        return Ok(QueryOutput { header, rows });
    }
    let mut done = false;
    while !done
        invariant
            k >= 1,
            colv@.len() == k,
            forall|j: int| 0 <= j < k ==> (#[trigger] cols[j]) == ((colv@[j].0, colv@[j].1@)),
            forall|j: int|
                0 <= j < k ==> rows@.len() <= spec_col_count((#[trigger] cols[j]).0, cols[j].1),
            forall|rr: int| 0 <= rr < rows@.len() ==> (#[trigger] rows@[rr])@.len() == k,
            forall|rr: int, j: int|
                0 <= rr < rows@.len() && 0 <= j < k ==> (#[trigger] rows@[rr]@[j]) == spec_col_cell(
                    cols[j].0,
                    cols[j].1,
                    rr,
                ),
            match limit {
                Some(l) => rows@.len() <= l,
                None => true,
            },
            done ==> (match limit {
                Some(l) => rows@.len() == l,
                None => false,
            }) || (exists|j: int|
                0 <= j < k && spec_col_count((#[trigger] cols[j]).0, cols[j].1) == rows@.len()),
        decreases cols[0].1.len() - rows@.len(), (if done {
            0int
        } else {
            1int
        }),
    {
        let mut hit_limit = false;
        match limit {
            Some(l) => {
                if rows.len() >= l {
                    done = true;
                    hit_limit = true;
                }
            },
            None => {},
        }
        if !hit_limit {
            let ghost rr = rows@.len() as int;
            let mut row: Vec<CellValue> = Vec::new();
            let mut eof = false;
            let mut cc: usize = 0;
            while cc < k && !eof
                invariant
                    cc <= k,
                    row@.len() == cc,
                    forall|j: int|
                        0 <= j < cc ==> (#[trigger] row@[j]) == spec_col_cell(
                            cols[j].0,
                            cols[j].1,
                            rr,
                        ),
                    forall|j: int|
                        0 <= j < cc ==> rr + 1 <= spec_col_count((#[trigger] cols[j]).0, cols[j].1),
                    eof ==> exists|j: int|
                        0 <= j < k && spec_col_count((#[trigger] cols[j]).0, cols[j].1) == rr,
                decreases k - cc, (if eof {
                    0int
                } else {
                    1int
                }),
            {
                let t2 = colv[cc].0;
                let w = width(t2);
                let dlen = colv[cc].1.len();
                proof {
                    let dl = dlen as int;
                    let wi = w as int;
                    vstd::arithmetic::div_mod::lemma_fundamental_div_mod(dl, wi);
                    vstd::arithmetic::mul::lemma_mul_inequality(rr, dl / wi, wi);
                    assert(rr * wi <= (dl / wi) * wi);
                }
                let off = rows.len() * w;
                proof {
                    assert(off == rr * w);
                    assert(off <= dlen);
                }
                if off == dlen {
                    proof {
                        vstd::arithmetic::div_mod::lemma_fundamental_div_mod_converse(
                            dlen as int,
                            w as int,
                            rr,
                            0,
                        );
                        assert(spec_col_count(cols[cc as int].0, cols[cc as int].1) == rr);
                    }
                    eof = true;
                } else if dlen - off < w {
                    proof {
                        vstd::arithmetic::div_mod::lemma_fundamental_div_mod_converse(
                            dlen as int,
                            w as int,
                            rr,
                            dlen - off,
                        );
                        assert(cols[cc as int].1.len() % spec_width(cols[cc as int].0) != 0);
                        assert(!select_aligned(oc, on, key@, names)) by {
                            assert((table_sel_cols(oc, on, key@, names)[cc as int]).1.len()
                                % spec_width(table_sel_cols(oc, on, key@, names)[cc as int].0)
                                != 0);
                        }
                    }
                    return Err(DbError::Truncated);
                } else {
                    let cell = crate::codec::decode_cell(t2, &colv[cc].1, off);
                    proof {
                        assert(spec_col_cell(cols[cc as int].0, cols[cc as int].1, rr) == cell);
                        assert(rr * w + w <= dlen);
                        vstd::arithmetic::div_mod::lemma_fundamental_div_mod(
                            dlen as int,
                            w as int,
                        );
                        assert(rr + 1 <= spec_col_count(cols[cc as int].0, cols[cc as int].1)) by {
                            if (dlen as int / w as int) < rr + 1 {
                                vstd::arithmetic::mul::lemma_mul_inequality(
                                    dlen as int / w as int,
                                    rr,
                                    w as int,
                                );
                                assert(false);
                            }
                        };
                    }
                    row.push(cell);
                    cc = cc + 1;
                }
            }
            if eof {
                done = true;
            } else {
                rows.push(row);
            }
        }
    }
    let out = QueryOutput { header, rows };
    proof {
        assert(select_post(oc, on, key@, names, limit, names_view(out.header), rows_view(out.rows)));
    }
    Ok(out)
}

} // verus!
