use vstd::prelude::*;
use std::collections::HashMap;
use std::hash::Hash;
use vstd::std_specs::hash::obeys_key_model;
use crate::deps::{DependencySearch, DependencySource};

verus! {

broadcast use vstd::std_specs::hash::group_hash_axioms;

/// The queries that no searcher could answer, each with the last error seen for it.
pub type UnresolvedMap<K> = HashMap<K, String>;

/// Resolves dependencies into a storage by asking searchers in turn; queries that no
/// searcher could answer are kept with the last error seen.
pub struct DependencyResolverMap<Q, Storage, S> {
    map: Storage,
    unresolved: UnresolvedMap<Q>,
    searchers: Vec<S>,
}

impl<Q: Clone + Eq + Hash, Storage, S: DependencySearch<Q>> DependencyResolverMap<Q, Storage, S> {
    pub closed spec fn storage(&self) -> Storage {
        self.map
    }

    /// The unresolved queries with their errors.
    pub closed spec fn unresolved(&self) -> Map<Q, String> {
        self.unresolved@
    }

    /// The searchers, in the order they are asked.
    pub closed spec fn searchers(&self) -> Seq<S> {
        self.searchers@
    }

    pub fn new(map: Storage) -> (r: Self)
        ensures
            r.storage() == map,
            obeys_key_model::<Q>() ==> r.unresolved() == Map::<Q, String>::empty(),
            r.searchers() == Seq::<S>::empty(),
    {
        DependencyResolverMap { map, searchers: Vec::new(), unresolved: HashMap::new() }
    }

    /// The storage, and the queries left unresolved with their errors.
    pub fn split(self) -> (r: (Storage, UnresolvedMap<Q>))
        ensures
            r.0 == self.storage(),
            r.1@ == self.unresolved(),
    {
        (self.map, self.unresolved)
    }

    /// Adds a searcher, asked after those added before.
    pub fn add_searcher(&mut self, resolver: S)
        ensures
            final(self).storage() == old(self).storage(),
            final(self).unresolved() == old(self).unresolved(),
            final(self).searchers() == old(self).searchers().push(resolver),
    {
        self.searchers.push(resolver);
    }

    /// Asks the searchers in the order they were added and gives the first answer found;
    /// the searchers after it are not asked. Where none is found and some searcher failed,
    /// the query is kept as unresolved with the last error, in place of any error kept
    /// for it before.
    pub fn search(&mut self, query: &Q) -> (r: Option<(DependencySource, Vec<u8>)>)
        ensures
            final(self).storage() == old(self).storage(),
            final(self).searchers() == old(self).searchers(),
            r is Some || old(self).searchers().len() == 0 ==> final(self).unresolved() == old(
                self,
            ).unresolved(),
            old(self).searchers().len() == 0 ==> r is None,
            r is None && old(self).searchers().len() > 0 && obeys_key_model::<Q>() ==> exists|
                k: Q,
                e: String,
            |
                cloned(*query, k) && final(self).unresolved() == old(self).unresolved().insert(k, e),
    {
        let mut error: Option<String> = None;
        let n = self.searchers.len();
        let mut i: usize = 0;
        while i < n
            invariant
                n == self.searchers@.len(),
                i <= n,
                *self == *old(self),
                i > 0 <==> error is Some,
            decreases n - i,
        {
            match self.searchers[i].search(query.clone()) {
                Ok(found) => {
                    return Some(found);
                },
                Err(err) => {
                    error = Some(err);
                },
            }
            i = i + 1;
        }
        match error {
            Some(err) => {
                let k = query.clone();
                let ghost e = err;
                let ghost kk = k;
                let ghost before = self.unresolved@;
                self.unresolved.insert(k, err);
                assert(cloned(*query, kk));
                assert(before == old(self).unresolved());
                proof {
                    if obeys_key_model::<Q>() {
                        assert(cloned(*query, kk) && self.unresolved() == old(self).unresolved().insert(kk, e));
                        assert(exists|k: Q, e2: String|
                            cloned(*query, k) && self.unresolved() == old(self).unresolved().insert(k, e2));
                    }
                }
            },
            None => {},
        }
        None
    }
}

} // verus!
