//! The library's cross-component laws, stated and proved against the
//! contracts of the codec, the root document manager and the scanner.

use vstd::prelude::*;

use crate::codec::{
    lemma_codec_round_trip, lemma_le_bytes_len, spec_cell_of, spec_col_cell, spec_col_count,
    spec_encode, spec_in_range, spec_raw, spec_width, FieldType,
};
use crate::docs::{lemma_assoc_at, root_matches_schema, schema_wf, spec_assoc, DocV, SchemaV};
use crate::table::{
    effective_value, insert_committed_w, new_block_v, new_root_v, old_col_data, old_refs,
    sel_column, select_post, table_sel_cols, table_view, InsertWitness,
};

verus! {

/// After a committed insert, each declared field's stored buffer is its
/// previous buffer with exactly one encoded value appended: the buffer
/// grows by the field's width and never shrinks.
pub proof fn lemma_insert_grows_column(
    oc: Map<u64, DocV>,
    on: Map<Seq<char>, u64>,
    nc: Map<u64, DocV>,
    nn: Map<Seq<char>, u64>,
    key: Seq<char>,
    rec: Seq<(Seq<char>, crate::codec::RecordValue)>,
    now: u64,
    new_root_id: u64,
    w: InsertWitness,
    i: int,
)
    requires
        insert_committed_w(oc, on, nc, nn, key, rec, now, new_root_id, w),
        0 <= i < w.schema.fields.len(),
    ensures
        w.mid[w.new_ids[i]]->Column_0.data.len() == old_col_data(
            oc,
            w.old_root.columns,
            w.schema.fields[i].0,
        ).len() + spec_width(w.schema.fields[i].1),
        w.mid[w.new_ids[i]]->Column_0.data.len() > old_col_data(
            oc,
            w.old_root.columns,
            w.schema.fields[i].0,
        ).len(),
{
    let t = w.schema.fields[i].1;
    let v = effective_value(rec, w.schema.fields[i].0, now)->0;
    lemma_le_bytes_len(spec_raw(t, v), spec_width(t));
    assert(w.mid[w.new_ids[i]] == DocV::Column(
        new_block_v(oc, w.old_root.columns, w.schema.fields[i], rec, now),
    ));
}

/// A freshly created table holds no data: every field's column buffer is
/// empty, so after `n` committed inserts touching a field of width `w`
/// the buffer holds exactly `n * w` bytes, by the growth law above.
pub proof fn lemma_created_table_is_empty(
    oc: Map<u64, DocV>,
    on: Map<Seq<char>, u64>,
    nc: Map<u64, DocV>,
    nn: Map<Seq<char>, u64>,
    key: Seq<char>,
    schema: SchemaV,
    schema_id: u64,
    root_id: u64,
    name: Seq<char>,
)
    requires
        crate::table::created_table(oc, on, nc, nn, key, schema, schema_id, root_id),
    ensures
        old_col_data(nc, crate::table::empty_root_of(schema_id, schema).columns, name).len() == 0,
{
    let cols = crate::table::empty_root_of(schema_id, schema).columns;
    assert(forall|i: int| 0 <= i < cols.len() ==> (#[trigger] cols[i]).1 is None);
    if spec_assoc(cols, name) is Some {
        crate::docs::lemma_assoc_some_index(cols, name);
        let i = choose|i: int|
            0 <= i < cols.len() && #[trigger] cols[i] == (name, spec_assoc(cols, name)->0);
        assert(cols[i].1 is None);
    }
}

/// Garbage collection touches only the previously-referenced ids: every
/// other id the store held at publish time survives with its content
/// unchanged, and nothing appears that the store did not hold then.
pub proof fn lemma_gc_touches_only_old_refs(
    oc: Map<u64, DocV>,
    on: Map<Seq<char>, u64>,
    nc: Map<u64, DocV>,
    nn: Map<Seq<char>, u64>,
    key: Seq<char>,
    rec: Seq<(Seq<char>, crate::codec::RecordValue)>,
    now: u64,
    new_root_id: u64,
    w: InsertWitness,
    id: u64,
)
    requires
        insert_committed_w(oc, on, nc, nn, key, rec, now, new_root_id, w),
    ensures
        w.mid.dom().contains(id) && !old_refs(w.old_root_id, w.old_root.columns).contains(id)
            ==> nc.dom().contains(id) && nc[id] == w.mid[id],
        nc.dom().contains(id) ==> w.mid.dom().contains(id) && nc[id] == w.mid[id],
{
}

/// Helper: the superseded ids of a well-formed table hold its old root
/// and old column blocks, so they are distinct from the schema document,
/// from the new root and from the new blocks.
proof fn lemma_old_refs_are_old_docs(
    oc: Map<u64, DocV>,
    on: Map<Seq<char>, u64>,
    nc: Map<u64, DocV>,
    nn: Map<Seq<char>, u64>,
    key: Seq<char>,
    rec: Seq<(Seq<char>, crate::codec::RecordValue)>,
    now: u64,
    new_root_id: u64,
    w: InsertWitness,
)
    requires
        insert_committed_w(oc, on, nc, nn, key, rec, now, new_root_id, w),
        schema_wf(w.schema),
        root_matches_schema(w.old_root, w.schema),
    ensures
        !old_refs(w.old_root_id, w.old_root.columns).contains(w.old_root.schema_id),
{
    let orefs = old_refs(w.old_root_id, w.old_root.columns);
    let sid = w.old_root.schema_id;
    if orefs.contains(sid) {
        if sid == w.old_root_id {
            assert(oc[sid] is Root && oc[sid] is Schema);
            assert(false);
        } else {
            let j = choose|j: int|
                0 <= j < w.old_root.columns.len() && (#[trigger] w.old_root.columns[j]).1 == Some(
                    sid,
                );
            let name = w.old_root.columns[j].0;
            assert(name == w.schema.fields[j].0);
            assert(forall|a: int, b: int|
                0 <= a < b < w.old_root.columns.len() ==> w.old_root.columns[a].0
                    != w.old_root.columns[b].0) by {
                assert(forall|a: int|
                    0 <= a < w.old_root.columns.len() ==> (#[trigger] w.old_root.columns[a]).0
                        == w.schema.fields[a].0);
            }
            lemma_assoc_at(w.old_root.columns, j);
            assert(spec_assoc(w.old_root.columns, name) == Some(Some(sid)));
            let t = table_view(oc, on, key)->0;
            assert(t.1 == w.old_root && t.2 == w.schema);
            assert(crate::table::head_ok(oc, w.old_root.columns, w.schema.fields[j].0));
            assert(oc[sid] is Column && oc[sid] is Schema);
            assert(false);
        }
    }
}

/// A committed insert is immediately visible to a scan.
///
/// Provided garbage collection did not collide with the new documents —
/// the ids of the new blocks and of the new root lie outside the
/// superseded ids, which content addressing gives whenever no new buffer
/// equals a superseded block byte for byte — the key now resolves to the
/// new root over the unchanged schema; each declared field's column is
/// its previous buffer plus the one encoded value; and, where the
/// previous buffer ended on a value boundary and the value is
/// representable at the declared type, the column's last row decodes to
/// exactly the inserted value.
pub proof fn lemma_insert_then_select(
    oc: Map<u64, DocV>,
    on: Map<Seq<char>, u64>,
    nc: Map<u64, DocV>,
    nn: Map<Seq<char>, u64>,
    key: Seq<char>,
    rec: Seq<(Seq<char>, crate::codec::RecordValue)>,
    now: u64,
    new_root_id: u64,
    w: InsertWitness,
    i: int,
)
    requires
        insert_committed_w(oc, on, nc, nn, key, rec, now, new_root_id, w),
        forall|j: int|
            0 <= j < w.new_ids.len() ==> !old_refs(w.old_root_id, w.old_root.columns).contains(
                #[trigger] w.new_ids[j],
            ),
        !old_refs(w.old_root_id, w.old_root.columns).contains(new_root_id),
        schema_wf(w.schema),
        root_matches_schema(w.old_root, w.schema),
        0 <= i < w.schema.fields.len(),
        old_col_data(oc, w.old_root.columns, w.schema.fields[i].0).len() % spec_width(
            w.schema.fields[i].1,
        ) == 0,
        spec_in_range(w.schema.fields[i].1, effective_value(rec, w.schema.fields[i].0, now)->0),
    ensures
        table_view(nc, nn, key) == Some(
            (new_root_id, new_root_v(w.schema, w.old_root.schema_id, w.new_ids), w.schema),
        ),
        ({
            let t = w.schema.fields[i].1;
            let old_data = old_col_data(oc, w.old_root.columns, w.schema.fields[i].0);
            let v = effective_value(rec, w.schema.fields[i].0, now)->0;
            let new_data = old_data + spec_encode(t, v);
            &&& sel_column(
                nc,
                new_root_v(w.schema, w.old_root.schema_id, w.new_ids),
                w.schema,
                w.schema.fields[i].0,
            ) == Some((t, new_data))
            &&& spec_col_count(t, new_data) == spec_col_count(t, old_data) + 1
            &&& spec_col_cell(t, new_data, spec_col_count(t, old_data) as int) == spec_cell_of(
                t,
                v,
            )
        }),
{
    let orefs = old_refs(w.old_root_id, w.old_root.columns);
    let newroot = new_root_v(w.schema, w.old_root.schema_id, w.new_ids);
    let name = w.schema.fields[i].0;
    let t = w.schema.fields[i].1;
    let v = effective_value(rec, name, now)->0;
    let old_data = old_col_data(oc, w.old_root.columns, name);
    let wd = spec_width(t);
    let new_data = old_data + spec_encode(t, v);

    // The key resolves to the new root, over the unchanged schema.
    lemma_old_refs_are_old_docs(oc, on, nc, nn, key, rec, now, new_root_id, w);
    assert(nc.dom().contains(new_root_id) && nc[new_root_id] == DocV::Root(newroot));
    assert(oc.dom().contains(w.old_root.schema_id));
    assert(w.mid.dom().contains(w.old_root.schema_id) && w.mid[w.old_root.schema_id]
        == oc[w.old_root.schema_id]);
    assert(nc.dom().contains(w.old_root.schema_id) && nc[w.old_root.schema_id] == DocV::Schema(
        w.schema,
    ));
    assert(table_view(nc, nn, key) == Some((new_root_id, newroot, w.schema)));

    // The field's column in the new root is the new block.
    lemma_assoc_at(w.schema.fields, i);
    assert(spec_assoc(w.schema.fields, name) == Some(t));
    assert(forall|a: int|
        0 <= a < newroot.columns.len() ==> (#[trigger] newroot.columns[a]).0
            == w.schema.fields[a].0);
    lemma_assoc_at(newroot.columns, i);
    assert(spec_assoc(newroot.columns, name) == Some(Some(w.new_ids[i])));
    assert(w.mid.dom().contains(w.new_ids[i]));
    assert(!orefs.contains(w.new_ids[i]));
    assert(nc.dom().contains(w.new_ids[i]));
    assert(nc[w.new_ids[i]] == w.mid[w.new_ids[i]]);
    assert(w.mid[w.new_ids[i]] == DocV::Column(
        new_block_v(oc, w.old_root.columns, w.schema.fields[i], rec, now),
    ));
    assert(nc[w.new_ids[i]]->Column_0.data == new_data);
    assert(sel_column(nc, newroot, w.schema, name) == Some((t, new_data)));

    // The column grew by one complete value.
    lemma_le_bytes_len(spec_raw(t, v), wd);
    assert(spec_encode(t, v).len() == wd);
    let q = spec_col_count(t, old_data);
    assert(q == old_data.len() / wd);
    vstd::arithmetic::div_mod::lemma_fundamental_div_mod(old_data.len() as int, wd as int);
    assert(old_data.len() as int == (wd as int) * ((old_data.len() as int) / (wd as int)) + (
    old_data.len() as int) % (wd as int));
    assert((old_data.len() as int) % (wd as int) == 0);
    vstd::arithmetic::mul::lemma_mul_is_commutative(wd as int, q as int);
    assert(old_data.len() == q * wd);
    vstd::arithmetic::mul::lemma_mul_is_distributive_add_other_way(wd as int, q as int, 1);
    assert((q as int + 1) * (wd as int) == (q as int) * (wd as int) + wd as int);
    assert(new_data.len() as int == (q as int + 1) * (wd as int) + 0);
    vstd::arithmetic::div_mod::lemma_fundamental_div_mod_converse(
        new_data.len() as int,
        wd as int,
        q as int + 1,
        0,
    );
    assert(spec_col_count(t, new_data) == q + 1);

    // Its last row is the inserted value.
    assert(new_data.subrange(old_data.len() as int, old_data.len() + wd as int) =~= spec_encode(
        t,
        v,
    ).subrange(0, wd as int));
    lemma_codec_round_trip(t, v);
    assert(spec_col_cell(t, new_data, q as int) == spec_cell_of(t, v));
}

/// An insert followed immediately by an unlimited scan over declared
/// fields shows the new record: one more row than before, whose entries
/// are exactly the inserted values.
///
/// The hypotheses are those of a well-formed table that the collector
/// did not collide with: unique schema keys, a root matching the schema,
/// the new ids outside the superseded ids, each requested field holding
/// `n0` complete values before the insert, and each inserted value
/// representable at its declared type.
pub proof fn lemma_insert_then_select_rows(
    oc: Map<u64, DocV>,
    on: Map<Seq<char>, u64>,
    nc: Map<u64, DocV>,
    nn: Map<Seq<char>, u64>,
    key: Seq<char>,
    rec: Seq<(Seq<char>, crate::codec::RecordValue)>,
    now: u64,
    new_root_id: u64,
    w: InsertWitness,
    fields: Seq<Seq<char>>,
    header: Seq<Seq<char>>,
    rows: Seq<Seq<crate::codec::CellValue>>,
    n0: nat,
)
    requires
        insert_committed_w(oc, on, nc, nn, key, rec, now, new_root_id, w),
        forall|j: int|
            0 <= j < w.new_ids.len() ==> !old_refs(w.old_root_id, w.old_root.columns).contains(
                #[trigger] w.new_ids[j],
            ),
        !old_refs(w.old_root_id, w.old_root.columns).contains(new_root_id),
        schema_wf(w.schema),
        root_matches_schema(w.old_root, w.schema),
        fields.len() > 0,
        forall|c: int|
            0 <= c < fields.len() ==> #[trigger] spec_assoc(w.schema.fields, fields[c]) is Some,
        forall|c: int|
            0 <= c < fields.len() ==> old_col_data(oc, w.old_root.columns, fields[c]).len() == n0
                * spec_width(#[trigger] spec_assoc(w.schema.fields, fields[c])->0),
        forall|c: int|
            0 <= c < fields.len() ==> spec_in_range(
                #[trigger] spec_assoc(w.schema.fields, fields[c])->0,
                effective_value(rec, fields[c], now)->0,
            ),
        select_post(nc, nn, key, fields, None, header, rows),
    ensures
        rows.len() == n0 + 1,
        forall|c: int|
            0 <= c < fields.len() ==> rows[n0 as int][c] == spec_cell_of(
                #[trigger] spec_assoc(w.schema.fields, fields[c])->0,
                effective_value(rec, fields[c], now)->0,
            ),
{
    let newroot = new_root_v(w.schema, w.old_root.schema_id, w.new_ids);
    let cols = table_sel_cols(nc, nn, key, fields);
    assert forall|c: int| 0 <= c < fields.len() implies {
        let t = spec_assoc(w.schema.fields, fields[c])->0;
        let old_data = old_col_data(oc, w.old_root.columns, fields[c]);
        let v = effective_value(rec, fields[c], now)->0;
        &&& #[trigger] cols[c] == ((t, old_data + spec_encode(t, v)))
        &&& spec_col_count(cols[c].0, cols[c].1) == n0 + 1
        &&& spec_col_cell(cols[c].0, cols[c].1, n0 as int) == spec_cell_of(t, v)
    } by {
        let t = spec_assoc(w.schema.fields, fields[c])->0;
        let old_data = old_col_data(oc, w.old_root.columns, fields[c]);
        let v = effective_value(rec, fields[c], now)->0;
        let wd = spec_width(t);
        crate::docs::lemma_assoc_some_index(w.schema.fields, fields[c]);
        let i = choose|i: int|
            0 <= i < w.schema.fields.len() && #[trigger] w.schema.fields[i] == (fields[c], t);
        assert(w.schema.fields[i].0 == fields[c] && w.schema.fields[i].1 == t);
        assert(wd >= 1);
        assert(old_data.len() as int == (n0 as int) * (wd as int));
        vstd::arithmetic::div_mod::lemma_mod_multiples_basic(n0 as int, wd as int);
        assert(old_data.len() % wd == 0);
        lemma_insert_then_select(oc, on, nc, nn, key, rec, now, new_root_id, w, i);
        vstd::arithmetic::div_mod::lemma_fundamental_div_mod_converse(
            old_data.len() as int,
            wd as int,
            n0 as int,
            0,
        );
        assert(spec_col_count(t, old_data) == n0);
        assert(sel_column(nc, newroot, w.schema, fields[c]) == Some(
            (t, old_data + spec_encode(t, v)),
        ));
        assert(table_view(nc, nn, key) == Some((new_root_id, newroot, w.schema)));
        assert(cols[c] == sel_column(nc, newroot, w.schema, fields[c])->0);
    }
    assert(exists|c: int|
        0 <= c < cols.len() && spec_col_count((#[trigger] cols[c]).0, cols[c].1) == rows.len());
    let cw = choose|c: int|
        0 <= c < cols.len() && spec_col_count((#[trigger] cols[c]).0, cols[c].1) == rows.len();
    assert(rows.len() == n0 + 1);
    assert forall|c: int| 0 <= c < fields.len() implies rows[n0 as int][c] == spec_cell_of(
        #[trigger] spec_assoc(w.schema.fields, fields[c])->0,
        effective_value(rec, fields[c], now)->0,
    ) by {
        assert(rows[n0 as int][c] == spec_col_cell(cols[c].0, cols[c].1, n0 as int));
    }
}

/// The least number of complete values across a non-empty column set.
pub open spec fn min_col_rows(cols: Seq<(FieldType, Seq<u8>)>) -> nat
    decreases cols.len(),
{
    if cols.len() <= 1 {
        spec_col_count(cols[0].0, cols[0].1)
    } else {
        let first = spec_col_count(cols[0].0, cols[0].1);
        let rest = min_col_rows(cols.drop_first());
        if first <= rest {
            first
        } else {
            rest
        }
    }
}

proof fn lemma_min_col_rows_char(cols: Seq<(FieldType, Seq<u8>)>, m: nat)
    requires
        cols.len() > 0,
        forall|c: int| 0 <= c < cols.len() ==> m <= spec_col_count(
            (#[trigger] cols[c]).0,
            cols[c].1,
        ),
        exists|c: int|
            0 <= c < cols.len() && spec_col_count((#[trigger] cols[c]).0, cols[c].1) == m,
    ensures
        min_col_rows(cols) == m,
    decreases cols.len(),
{
    let cw = choose|c: int|
        0 <= c < cols.len() && spec_col_count((#[trigger] cols[c]).0, cols[c].1) == m;
    if cols.len() == 1 {
        assert(cw == 0);
    } else {
        let rest = cols.drop_first();
        assert(forall|c: int|
            0 <= c < rest.len() ==> (#[trigger] rest[c]) == cols[c + 1]);
        if cw == 0 {
            lemma_min_col_rows_lb(rest, m);
        } else {
            assert(rest[cw - 1] == cols[cw]);
            lemma_min_col_rows_char(rest, m);
        }
    }
}

proof fn lemma_min_col_rows_lb(cols: Seq<(FieldType, Seq<u8>)>, m: nat)
    requires
        cols.len() > 0,
        forall|c: int| 0 <= c < cols.len() ==> m <= spec_col_count(
            (#[trigger] cols[c]).0,
            cols[c].1,
        ),
    ensures
        m <= min_col_rows(cols),
    decreases cols.len(),
{
    if cols.len() > 1 {
        let rest = cols.drop_first();
        assert(forall|c: int|
            0 <= c < rest.len() ==> (#[trigger] rest[c]) == cols[c + 1]);
        lemma_min_col_rows_lb(rest, m);
    }
}

/// With no limit, a scan returns one row per complete value of the
/// scarcest requested column: the row count is the minimum row count
/// across all requested columns.
pub proof fn lemma_select_row_count_is_min(
    content: Map<u64, DocV>,
    names: Map<Seq<char>, u64>,
    key: Seq<char>,
    fields: Seq<Seq<char>>,
    header: Seq<Seq<char>>,
    rows: Seq<Seq<crate::codec::CellValue>>,
)
    requires
        select_post(content, names, key, fields, None, header, rows),
        fields.len() > 0,
    ensures
        rows.len() == min_col_rows(table_sel_cols(content, names, key, fields)),
{
    let cols = table_sel_cols(content, names, key, fields);
    lemma_min_col_rows_char(cols, rows.len() as nat);
}

} // verus!
