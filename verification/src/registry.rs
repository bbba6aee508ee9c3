//! The registry: a mapping from collection name to collection, in
//! insertion order, with unique names.
//!
//! Lock discipline: the registry itself is single-threaded; the embedding
//! program owns it behind one exclusive lock and serializes every
//! operation (a coarse-grained design, acceptable for small deployments).
//! Under that discipline no update is lost: concurrent upserts into one
//! collection apply in some order, and each appends its whole batch.

use vstd::prelude::*;
use crate::collection::{upsert_post, search_hits_post, Collection, CollectionConfig, SearchHit};
use crate::errors::VectorDbError;

verus! {

pub struct Registry {
    pub entries: Vec<(String, Collection)>,
}

impl Registry {
    /// Every collection is well formed and names are unique.
    pub open spec fn wf(self) -> bool {
        &&& forall|i: int| 0 <= i < self.entries@.len() ==> (#[trigger] self.entries@[i]).1.wf()
        &&& forall|i: int, j: int|
            0 <= i < self.entries@.len() && 0 <= j < self.entries@.len() && i != j ==> (
            #[trigger] self.entries@[i]).0@ != (#[trigger] self.entries@[j]).0@
    }

    /// Is some collection registered under this name?
    pub open spec fn has_name(self, name: Seq<char>) -> bool {
        exists|i: int| 0 <= i < self.entries@.len() && (#[trigger] self.entries@[i]).0@ == name
    }

    /// The position of the collection with this name (unique when present).
    pub open spec fn index_of(self, name: Seq<char>) -> int {
        choose|i: int| 0 <= i < self.entries@.len() && (#[trigger] self.entries@[i]).0@ == name
    }

    /// The registered names, in insertion order.
    pub open spec fn names(self) -> Seq<Seq<char>> {
        self.entries@.map_values(|e: (String, Collection)| e.0@)
    }

    /// An empty registry.
    pub fn new() -> (r: Registry)
        ensures
            r.wf(),
            r.entries@.len() == 0,
    {
        Registry { entries: Vec::new() }
    }

    /// Finds the position of a name by linear scan.
    fn find(&self, name: &String) -> (r: Option<usize>)
        ensures
            match r {
                Some(i) => i < self.entries@.len() && self.entries@[i as int].0@ == name@,
                None => !self.has_name(name@),
            },
    {
        let mut i: usize = 0;
        while i < self.entries.len()
            invariant
                i <= self.entries@.len(),
                forall|t: int| 0 <= t < i ==> (#[trigger] self.entries@[t]).0@ != name@,
            decreases self.entries@.len() - i,
        {
            if self.entries[i].0 == *name {
                return Some(i);
            }
            i = i + 1;
        }
        None
    }

    /// Registers an empty collection under `name`. Strict creation: an
    /// existing name fails with `AlreadyExists` (never a silent overwrite,
    /// which would lose data); an unusable configuration or a zero `dim`
    /// fails with `InvalidConfig`. Nothing changes on failure.
    pub fn create(&mut self, name: String, config: CollectionConfig, dim: usize) -> (r: Result<
        (),
        VectorDbError,
    >)
        requires
            old(self).wf(),
        ensures
            final(self).wf(),
            match r {
                Ok(u) => {
                    &&& !old(self).has_name(name@)
                    &&& config.valid()
                    &&& dim >= 1
                    &&& final(self).entries@.len() == old(self).entries@.len() + 1
                    &&& forall|i: int|
                        0 <= i < old(self).entries@.len() ==> final(self).entries@[i] == old(
                            self,
                        ).entries@[i]
                    &&& final(self).entries@[old(self).entries@.len() as int].0@ == name@
                    &&& final(self).entries@[old(self).entries@.len() as int].1.count() == 0
                    &&& final(self).entries@[old(self).entries@.len() as int].1.config == config
                    &&& final(self).entries@[old(self).entries@.len() as int].1.dim == dim
                },
                Err(e) => {
                    &&& *final(self) == *old(self)
                    &&& (e == VectorDbError::AlreadyExists <==> old(self).has_name(name@))
                    &&& (e == VectorDbError::InvalidConfig <==> !old(self).has_name(name@) && (
                    !config.valid() || dim == 0))
                    &&& (e == VectorDbError::AlreadyExists || e == VectorDbError::InvalidConfig)
                },
            },
    {
        match self.find(&name) {
            Some(_) => Err(VectorDbError::AlreadyExists),
            None => {
                match Collection::new(config, dim) {
                    Ok(c) => {
                        let ghost pre = self.entries@;
                        self.entries.push((name, c));
                        proof {
                            assert forall|i: int, j: int|
                                0 <= i < self.entries@.len() && 0 <= j < self.entries@.len() && i
                                    != j implies (#[trigger] self.entries@[i]).0@ != (
                            #[trigger] self.entries@[j]).0@ by {
                                if i < pre.len() && j < pre.len() {
                                } else if i < pre.len() {
                                    assert(pre[i].0@ != self.entries@[j].0@);
                                } else if j < pre.len() {
                                    assert(pre[j].0@ != self.entries@[i].0@);
                                }
                            }
                        }
                        Ok(())
                    },
                    Err(e) => Err(e),
                }
            },
        }
    }

    /// Upserts a batch into the named collection; `NotFound` exactly when
    /// the name is unknown, otherwise exactly what the collection's own
    /// `upsert` promises, with every other entry untouched.
    pub fn upsert(
        &mut self,
        name: &String,
        ids: Vec<u64>,
        vectors: Vec<Vec<i32>>,
        payloads: Vec<String>,
    ) -> (r: Result<(), VectorDbError>)
        requires
            old(self).wf(),
        ensures
            final(self).wf(),
            !old(self).has_name(name@) ==> (r == Err::<(), VectorDbError>(VectorDbError::NotFound)
                && *final(self) == *old(self)),
            old(self).has_name(name@) ==> {
                let i = old(self).index_of(name@);
                &&& final(self).entries@.len() == old(self).entries@.len()
                &&& forall|j: int|
                    0 <= j < old(self).entries@.len() && j != i ==> final(self).entries@[j] == old(
                        self,
                    ).entries@[j]
                &&& final(self).entries@[i].0 == old(self).entries@[i].0
                &&& upsert_post(
                    old(self).entries@[i].1,
                    final(self).entries@[i].1,
                    r,
                    ids@,
                    vectors@,
                    payloads@,
                )
            },
    {
        match self.find(name) {
            None => Err(VectorDbError::NotFound),
            Some(i) => {
                proof {
                    let w = old(self).index_of(name@);
                    assert(self.entries@[i as int].0@ == name@);
                    assert(self.entries@[w].0@ == name@);
                    assert(w == i as int);
                }
                let r = self.entries[i].1.upsert(ids, vectors, payloads);
                r
            },
        }
    }

    /// Searches the named collection; `NotFound` exactly when the name is
    /// unknown, otherwise exactly what the collection's own `search`
    /// promises.
    pub fn search(&self, name: &String, query: &Vec<i32>, top_k: usize) -> (r: Result<
        Vec<SearchHit>,
        VectorDbError,
    >)
        requires
            self.wf(),
        ensures
            !self.has_name(name@) ==> r == Err::<Vec<SearchHit>, VectorDbError>(
                VectorDbError::NotFound,
            ),
            self.has_name(name@) ==> {
                let i = self.index_of(name@);
                match r {
                    Ok(hits) => {
                        &&& query@.len() == self.entries@[i].1.dim
                        &&& search_hits_post(hits@, self.entries@[i].1, query@, top_k as int)
                    },
                    Err(e) => {
                        &&& e == VectorDbError::DimensionMismatch
                        &&& query@.len() != self.entries@[i].1.dim
                    },
                }
            },
    {
        match self.find(name) {
            None => Err(VectorDbError::NotFound),
            Some(i) => {
                proof {
                    let w = self.index_of(name@);
                    assert(self.entries@[i as int].0@ == name@);
                    assert(self.entries@[w].0@ == name@);
                    assert(w == i as int);
                }
                self.entries[i].1.search(query, top_k)
            },
        }
    }

    /// The registered names, in insertion order (a documented, stable
    /// order).
    pub fn list(&self) -> (r: Vec<String>)
        ensures
            r@.len() == self.entries@.len(),
            forall|i: int| 0 <= i < r@.len() ==> (#[trigger] r@[i])@ == self.names()[i],
    {
        let mut r: Vec<String> = Vec::new();
        let mut i: usize = 0;
        while i < self.entries.len()
            invariant
                i <= self.entries@.len(),
                r@.len() == i,
                forall|t: int| 0 <= t < i ==> (#[trigger] r@[t])@ == self.entries@[t].0@,
            decreases self.entries@.len() - i,
        {
            r.push(self.entries[i].0.clone());
            i = i + 1;
        }
        r
    }
}

} // verus!
