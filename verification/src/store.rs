//! The two consumed backend interfaces — an immutable content-addressed
//! store and a mutable naming service — and verified in-memory doubles of
//! both, usable as injected test backends.

use vstd::pervasive::VecAdditionalExecFns;
use vstd::prelude::*;

use crate::docs::{assoc_view, spec_assoc, Doc, DocV};
use crate::errors::DbError;

verus! {

/// The model of a content store's holdings: the documents it holds, by
/// content id.
pub type ContentModel = Map<u64, DocV>;

/// The model of a naming service: the published pointers, by table key.
pub type NamesModel = Map<Seq<char>, u64>;

/// An immutable content-addressed blob store. Ids are deterministic and
/// content-derived: the store never rebinds an id that is in use to
/// different content. Stored documents are immutable and shared by any
/// number of referencing roots.
pub trait ContentStore {
    /// The documents currently held, by content id.
    spec fn content(&self) -> ContentModel;

    /// Stores a document and returns its content id. The id may be one
    /// already in use, but then only for this same content.
    fn put(&mut self, d: Doc) -> (r: Result<u64, DbError>)
        ensures
            match r {
                Ok(id) => {
                    &&& final(self).content() == old(self).content().insert(id, d@)
                    &&& old(self).content().dom().contains(id) ==> old(self).content()[id] == d@
                },
                Err(e) => {
                    &&& final(self).content() == old(self).content()
                    &&& e == DbError::StoreUnavailable
                },
            },
    ;

    /// Fetches the document a content id denotes.
    fn get(&self, id: u64) -> (r: Result<Doc, DbError>)
        ensures
            match r {
                Ok(d) => {
                    &&& self.content().dom().contains(id)
                    &&& d@ == self.content()[id]
                },
                Err(e) => {
                    ||| (e == DbError::NotFound && !self.content().dom().contains(id))
                    ||| e == DbError::StoreUnavailable
                },
            },
    ;

    /// Deletes the document a content id denotes: best-effort, and a
    /// failure leaves the store as it was.
    fn delete(&mut self, id: u64) -> (r: Result<(), DbError>)
        ensures
            match r {
                Ok(u) => final(self).content() == old(self).content().remove(id),
                Err(e) => {
                    &&& final(self).content() == old(self).content()
                    &&& (e == DbError::NotFound || e == DbError::StoreUnavailable)
                },
            },
    ;
}

/// A mutable pointer per table key, used as the single atomic commit
/// point: readers observe either the fully-old or the fully-new target.
pub trait NamingService {
    /// The published pointers, by table key.
    spec fn names(&self) -> NamesModel;

    /// Resolves a table key to the currently published content id.
    fn resolve(&self, key: &str) -> (r: Result<u64, DbError>)
        ensures
            match r {
                Ok(id) => {
                    &&& self.names().dom().contains(key@)
                    &&& self.names()[key@] == id
                },
                Err(e) => {
                    ||| (e == DbError::NotFound && !self.names().dom().contains(key@))
                    ||| e == DbError::StoreUnavailable
                },
            },
    ;

    /// Publishes `id` under `key`, waiting at most `timeout_secs`
    /// seconds. On timeout or failure the previously published pointer
    /// remains the visible committed state.
    fn publish(&mut self, key: &str, id: u64, timeout_secs: u64) -> (r: Result<(), DbError>)
        ensures
            match r {
                Ok(u) => final(self).names() == old(self).names().insert(key@, id),
                Err(e) => {
                    &&& final(self).names() == old(self).names()
                    &&& (e == DbError::Timeout || e == DbError::StoreUnavailable)
                },
            },
    ;
}

/// An in-memory content store. Ids are indices into the backing vector;
/// a deleted slot stays unoccupied, so ids are never reused.
pub struct MemStore {
    pub docs: Vec<Option<Doc>>,
}

impl MemStore {
    /// An empty store.
    pub fn new() -> (s: MemStore)
        ensures
            s.content() == Map::<u64, DocV>::empty(),
    {
        let s = MemStore { docs: Vec::new() };
        proof {
            assert(s.content() =~= Map::<u64, DocV>::empty());
        }
        s
    }
}

impl ContentStore for MemStore {
    open spec fn content(&self) -> ContentModel {
        Map::new(
            |id: u64| id < self.docs@.len() && self.docs@[id as int] is Some,
            |id: u64| self.docs@[id as int]->0@,
        )
    }

    fn put(&mut self, d: Doc) -> (r: Result<u64, DbError>) {
        let id = self.docs.len() as u64;
        let ghost dv = d@;
        self.docs.push(Some(d));
        proof {
            assert(final(self).content() =~= old(self).content().insert(id, dv));
        }
        Ok(id)
    }

    fn get(&self, id: u64) -> (r: Result<Doc, DbError>) {
        if id < self.docs.len() as u64 {
            let idx = id as usize;
            match &self.docs[idx] {
                Some(d) => Ok(d.duplicate()),
                None => Err(DbError::NotFound),
            }
        } else {
            Err(DbError::NotFound)
        }
    }

    fn delete(&mut self, id: u64) -> (r: Result<(), DbError>) {
        if id < self.docs.len() as u64 {
            let idx = id as usize;
            if self.docs[idx].is_some() {
                self.docs.set(idx, None);
                proof {
                    assert(final(self).content() =~= old(self).content().remove(id));
                }
                Ok(())
            } else {
                Err(DbError::NotFound)
            }
        } else {
            Err(DbError::NotFound)
        }
    }
}

/// An in-memory naming service. Publishing prepends, so the newest entry
/// for a key shadows the older ones.
pub struct MemNames {
    pub entries: Vec<(String, u64)>,
}

/// The pointer map an entry list denotes: the first entry for each key.
pub open spec fn names_of(entries: Seq<(Seq<char>, u64)>) -> Map<Seq<char>, u64> {
    Map::new(
        |k: Seq<char>| spec_assoc(entries, k) is Some,
        |k: Seq<char>| spec_assoc(entries, k)->0,
    )
}

impl MemNames {
    /// An empty naming service: no key has ever been published.
    pub fn new() -> (s: MemNames)
        ensures
            s.names() == Map::<Seq<char>, u64>::empty(),
    {
        let s = MemNames { entries: Vec::new() };
        proof {
            assert(s.names() =~= Map::<Seq<char>, u64>::empty());
        }
        s
    }
}

impl NamingService for MemNames {
    open spec fn names(&self) -> NamesModel {
        names_of(assoc_view(self.entries))
    }

    fn resolve(&self, key: &str) -> (r: Result<u64, DbError>) {
        let owned = key.to_owned();
        match crate::docs::assoc_get(&self.entries, &owned) {
            Some(id) => Ok(id),
            None => Err(DbError::NotFound),
        }
    }

    fn publish(&mut self, key: &str, id: u64, timeout_secs: u64) -> (r: Result<(), DbError>) {
        let owned = key.to_owned();
        self.entries.insert(0, (owned, id));
        proof {
            let entries = assoc_view(final(self).entries);
            assert(entries.drop_first() =~= assoc_view(old(self).entries));
            assert(entries[0].0 == key@);
            assert(final(self).names() =~= old(self).names().insert(key@, id));
        }
        Ok(())
    }
}

} // verus!
