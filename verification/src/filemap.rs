//! Maps from files.

use std::collections::BTreeMap;

use vstd::prelude::*;

use crate::vfs::FileId;

verus! {

broadcast use vstd::laws_cmp::group_laws_cmp;

/// A map whose keys are files.
pub struct FileMap<V> {
    map: BTreeMap<usize, V>,
}

impl<V> View for FileMap<V> {
    type V = Map<usize, V>;

    closed spec fn view(&self) -> Map<usize, V> {
        self.map@
    }
}

impl<V> FileMap<V> {
    /// The empty map.
    pub fn new() -> (r: FileMap<V>)
        ensures
            r@ == Map::<usize, V>::empty(),
    {
        FileMap { map: BTreeMap::new() }
    }

    /// The value of `file`.
    pub fn get(&self, file: FileId) -> (r: Option<&V>)
        ensures
            match r {
                Some(v) => self@.contains_key(file.raw) && *v == self@[file.raw],
                None => !self@.contains_key(file.raw),
            },
    {
        self.map.get(&file.raw)
    }

    /// Gives `file` a value.
    pub fn insert(&mut self, file: FileId, value: V)
        ensures
            final(self)@ == old(self)@.insert(file.raw, value),
    {
        self.map.insert(file.raw, value);
    }

    /// Takes `file` out and gives its value back.
    pub fn remove(&mut self, file: FileId) -> (r: Option<V>)
        ensures
            final(self)@ == old(self)@.remove(file.raw),
            match r {
                Some(v) => old(self)@.contains_key(file.raw) && v == old(self)@[file.raw],
                None => !old(self)@.contains_key(file.raw),
            },
    {
        self.map.remove(&file.raw)
    }
}

} // verus!
