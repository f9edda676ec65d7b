//! The persisted document model: schema documents, root documents and
//! column blocks, with their mathematical views.

use vstd::prelude::*;

use crate::codec::FieldType;

verus! {

/// An immutable schema document: field name to declared type, in document
/// order.
pub struct SchemaDoc {
    pub fields: Vec<(String, FieldType)>,
}

/// The view of a schema document.
pub struct SchemaV {
    pub fields: Seq<(Seq<char>, FieldType)>,
}

/// An immutable root document: the schema's content id, and field name to
/// current column block id. `None` is the empty sentinel: no data written
/// yet for that field.
pub struct RootDoc {
    pub schema_id: u64,
    pub columns: Vec<(String, Option<u64>)>,
}

/// The view of a root document.
pub struct RootV {
    pub schema_id: u64,
    pub columns: Seq<(Seq<char>, Option<u64>)>,
}

/// An immutable column block: the field's entire historical byte buffer,
/// plus a reserved predecessor link. The canonical protocol rewrites the
/// whole buffer on every insert, so `next` is always empty in practice;
/// the field is kept as part of the persisted format.
pub struct ColumnBlock {
    pub data: Vec<u8>,
    pub next: Option<u64>,
}

/// The view of a column block.
pub struct ColumnV {
    pub data: Seq<u8>,
    pub next: Option<u64>,
}

/// Any document the content store holds.
pub enum Doc {
    Schema(SchemaDoc),
    Root(RootDoc),
    Column(ColumnBlock),
}

/// The view of a stored document.
pub enum DocV {
    Schema(SchemaV),
    Root(RootV),
    Column(ColumnV),
}

/// The view of an association list keyed by field name.
pub open spec fn assoc_view<T>(v: Vec<(String, T)>) -> Seq<(Seq<char>, T)> {
    v@.map_values(|p: (String, T)| (p.0@, p.1))
}

impl View for SchemaDoc {
    type V = SchemaV;

    open spec fn view(&self) -> SchemaV {
        SchemaV { fields: assoc_view(self.fields) }
    }
}

impl View for RootDoc {
    type V = RootV;

    open spec fn view(&self) -> RootV {
        RootV { schema_id: self.schema_id, columns: assoc_view(self.columns) }
    }
}

impl View for ColumnBlock {
    type V = ColumnV;

    open spec fn view(&self) -> ColumnV {
        ColumnV { data: self.data@, next: self.next }
    }
}

impl View for Doc {
    type V = DocV;

    open spec fn view(&self) -> DocV {
        match self {
            Doc::Schema(s) => DocV::Schema(s@),
            Doc::Root(r) => DocV::Root(r@),
            Doc::Column(c) => DocV::Column(c@),
        }
    }
}

/// The first value bound to `k`, searching in document order.
pub open spec fn spec_assoc<T>(s: Seq<(Seq<char>, T)>, k: Seq<char>) -> Option<T>
    decreases s.len(),
{
    if s.len() == 0 {
        None
    } else if s[0].0 == k {
        Some(s[0].1)
    } else {
        spec_assoc(s.drop_first(), k)
    }
}

/// No key appears twice.
pub open spec fn keys_unique<T>(s: Seq<(Seq<char>, T)>) -> bool {
    forall|i: int, j: int| 0 <= i < j < s.len() ==> s[i].0 != s[j].0
}

/// A search that passed the first `i` entries without a match finds what
/// the remainder finds.
pub proof fn lemma_assoc_skip<T>(s: Seq<(Seq<char>, T)>, k: Seq<char>, i: int)
    requires
        0 <= i <= s.len(),
        forall|j: int| 0 <= j < i ==> s[j].0 != k,
    ensures
        spec_assoc(s, k) == spec_assoc(s.skip(i), k),
    decreases i,
{
    if i == 0 {
        assert(s.skip(0) =~= s);
    } else {
        assert(s[0].0 != k);
        assert(spec_assoc(s, k) == spec_assoc(s.drop_first(), k));
        lemma_assoc_skip(s.drop_first(), k, i - 1);
        assert(s.drop_first().skip(i - 1) =~= s.skip(i));
    }
}

/// An entry at index `i` whose earlier keys all differ from its own is
/// what the search finds.
pub proof fn lemma_assoc_at<T>(s: Seq<(Seq<char>, T)>, i: int)
    requires
        0 <= i < s.len(),
        forall|j: int| 0 <= j < i ==> s[j].0 != s[i].0,
    ensures
        spec_assoc(s, s[i].0) == Some(s[i].1),
{
    lemma_assoc_skip(s, s[i].0, i);
    assert(s.skip(i).len() > 0);
    assert(s.skip(i)[0] == s[i]);
}

/// A successful search has a witnessing entry.
pub proof fn lemma_assoc_some_index<T>(s: Seq<(Seq<char>, T)>, k: Seq<char>)
    requires
        spec_assoc(s, k) is Some,
    ensures
        exists|i: int| 0 <= i < s.len() && #[trigger] s[i] == (k, spec_assoc(s, k)->0),
    decreases s.len(),
{
    if s.len() > 0 {
        if s[0].0 == k {
            assert(s[0] == (k, spec_assoc(s, k)->0));
        } else {
            lemma_assoc_some_index(s.drop_first(), k);
            let j = choose|j: int|
                0 <= j < s.drop_first().len() && #[trigger] s.drop_first()[j] == (
                    k,
                    spec_assoc(s.drop_first(), k)->0,
                );
            assert(s[j + 1] == (k, spec_assoc(s, k)->0));
        }
    }
}

/// Looks up `k` in an association list, returning the first match.
pub fn assoc_get<T: Copy>(v: &Vec<(String, T)>, k: &String) -> (r: Option<T>)
    ensures
        r == spec_assoc(assoc_view(*v), k@),
{
    let ghost s = assoc_view(*v);
    let mut i: usize = 0;
    while i < v.len()
        invariant
            i <= v.len(),
            s == assoc_view(*v),
            s.len() == v@.len(),
            forall|j: int| 0 <= j < i ==> s[j].0 != k@,
        decreases v.len() - i,
    {
        if v[i].0 == *k {
            proof {
                assert(s[i as int].0 == k@);
                lemma_assoc_skip(s, k@, i as int);
                assert(s.skip(i as int)[0] == s[i as int]);
            }
            return Some(v[i].1);
        }
        proof {
            assert(s[i as int].0 == v@[i as int].0@);
        }
        i = i + 1;
    }
    proof {
        lemma_assoc_skip(s, k@, s.len() as int);
        assert(s.skip(s.len() as int) =~= Seq::<(Seq<char>, T)>::empty());
    }
    None
}

/// A well-formed schema declares each field once.
pub open spec fn schema_wf(s: SchemaV) -> bool {
    keys_unique(s.fields)
}

/// A root document lists exactly the schema's fields, in schema order.
pub open spec fn root_matches_schema(r: RootV, s: SchemaV) -> bool {
    &&& r.columns.len() == s.fields.len()
    &&& forall|i: int| 0 <= i < r.columns.len() ==> r.columns[i].0 == s.fields[i].0
}

impl SchemaDoc {
    /// A deep copy, equal in view.
    pub fn duplicate(&self) -> (d: SchemaDoc)
        ensures
            d@ == self@,
    {
        let mut fields: Vec<(String, FieldType)> = Vec::new();
        let mut i: usize = 0;
        while i < self.fields.len()
            invariant
                i <= self.fields.len(),
                fields@ =~= self.fields@.subrange(0, i as int),
            decreases self.fields.len() - i,
        {
            let name = self.fields[i].0.clone();
            let t = self.fields[i].1;
            fields.push((name, t));
            proof {
                assert(fields@ =~= self.fields@.subrange(0, i + 1));
            }
            i = i + 1;
        }
        proof {
            assert(self.fields@.subrange(0, self.fields@.len() as int) =~= self.fields@);
        }
        let d = SchemaDoc { fields };
        proof {
            assert(d.fields@ == self.fields@);
        }
        d
    }
}

impl RootDoc {
    /// A deep copy, equal in view.
    pub fn duplicate(&self) -> (d: RootDoc)
        ensures
            d@ == self@,
    {
        let mut columns: Vec<(String, Option<u64>)> = Vec::new();
        let mut i: usize = 0;
        while i < self.columns.len()
            invariant
                i <= self.columns.len(),
                columns@ =~= self.columns@.subrange(0, i as int),
            decreases self.columns.len() - i,
        {
            let name = self.columns[i].0.clone();
            let head = self.columns[i].1;
            columns.push((name, head));
            proof {
                assert(columns@ =~= self.columns@.subrange(0, i + 1));
            }
            i = i + 1;
        }
        proof {
            assert(self.columns@.subrange(0, self.columns@.len() as int) =~= self.columns@);
        }
        let d = RootDoc { schema_id: self.schema_id, columns };
        proof {
            assert(d.columns@ == self.columns@);
        }
        d
    }
}

impl ColumnBlock {
    /// A deep copy, equal in view.
    pub fn duplicate(&self) -> (d: ColumnBlock)
        ensures
            d@ == self@,
    {
        let mut data: Vec<u8> = Vec::new();
        let mut i: usize = 0;
        while i < self.data.len()
            invariant
                i <= self.data.len(),
                data@ =~= self.data@.subrange(0, i as int),
            decreases self.data.len() - i,
        {
            data.push(self.data[i]);
            proof {
                assert(data@ =~= self.data@.subrange(0, i + 1));
            }
            i = i + 1;
        }
        proof {
            assert(self.data@.subrange(0, self.data@.len() as int) =~= self.data@);
        }
        ColumnBlock { data, next: self.next }
    }
}

impl Doc {
    /// A deep copy, equal in view.
    pub fn duplicate(&self) -> (d: Doc)
        ensures
            d@ == self@,
    {
        match self {
            Doc::Schema(s) => Doc::Schema(s.duplicate()),
            Doc::Root(r) => Doc::Root(r.duplicate()),
            Doc::Column(c) => Doc::Column(c.duplicate()),
        }
    }
}

} // verus!
