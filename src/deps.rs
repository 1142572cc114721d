use vstd::prelude::*;
use std::collections::HashMap;
use std::hash::Hash;

pub mod offline;
pub mod online;
pub mod resolver;

verus! {

/// Where the bytes of a dependency came from.
#[derive(Debug)]
pub enum DependencySource {
    /// A file, by its path.
    Fs(String),
    /// A node.
    Net,
    /// Nowhere known.
    Unknown,
}

/// A place where dependencies can be looked up; the answer names where the bytes came from.
pub trait DependencySearch<Q> {
    fn search(&self, query: Q) -> Result<(DependencySource, Vec<u8>), String>;
}

/// A collection seen as the map it holds.
pub trait AsMap<K, V> where K: Hash + Eq {
    fn as_map(&self) -> &HashMap<K, V>;

    fn as_map_mut(&mut self) -> &mut HashMap<K, V>;
}

/// The texts of a sequence of strings.
pub open spec fn texts(v: Seq<String>) -> Seq<Seq<char>> {
    v.map_values(|s: String| s@)
}

/// A copy of `v`.
pub(crate) fn copy_texts(v: &Vec<String>) -> (r: Vec<String>)
    ensures
        texts(r@) == texts(v@),
{
    let mut r: Vec<String> = Vec::new();
    let mut i: usize = 0;
    while i < v.len()
        invariant
            i <= v@.len(),
            r@.len() == i,
            forall|j: int| 0 <= j < i ==> (#[trigger] r@[j])@ == v@[j]@,
        decreases v@.len() - i,
    {
        let s = v[i].clone();
        r.push(s);
        i = i + 1;
    }
    assert(texts(r@) =~= texts(v@)) by {
        assert forall|j: int| 0 <= j < r@.len() implies texts(r@)[j] == texts(v@)[j] by {
            assert(r@[j]@ == v@[j]@);
        }
    }
    r
}

} // verus!
