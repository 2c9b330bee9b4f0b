//! The nuan5json extensions to the JSON data model: id maps, arrays that
//! may also be a single item or nothing, and maps that may be empty.
use vstd::prelude::*;
use std::collections::BTreeMap;
use std::ops::Deref;

verus! {

/// The name under which an id map goes through the serializer.
pub const TOKEN: &'static str = "IdMap";

/// A map from integer ids to values, written `[: id: value, ... ]`.
pub struct IdMap<T>(BTreeMap<i64, T>);

impl<T> View for IdMap<T> {
    type V = Map<i64, T>;

    closed spec fn view(&self) -> Map<i64, T> {
        self.0@
    }
}

impl<T> IdMap<T> {
    /// An empty id map.
    pub fn new() -> (res: Self)
        ensures
            res@ == Map::<i64, T>::empty(),
    {
        IdMap(BTreeMap::new())
    }

    /// Maps `key` to `value`, and gives back the value it replaced.
    pub fn insert(&mut self, key: i64, value: T) -> (res: Option<T>)
        ensures
            final(self)@ == old(self)@.insert(key, value),
            match res {
                Some(v) => old(self)@.contains_key(key) && v == old(self)@[key],
                None => !old(self)@.contains_key(key),
            },
    {
        proof {
            broadcast use vstd::laws_cmp::group_laws_cmp;
        }
        self.0.insert(key, value)
    }

    /// The id map holding what `map` holds.
    pub fn from_map(map: BTreeMap<i64, T>) -> (res: Self)
        ensures
            res@ == map@,
    {
        IdMap(map)
    }

    /// The map that this id map holds.
    pub fn into_map(self) -> (res: BTreeMap<i64, T>)
        ensures
            res@ == self@,
    {
        self.0
    }
}

impl<T> Deref for IdMap<T> {
    type Target = BTreeMap<i64, T>;

    fn deref(&self) -> (res: &BTreeMap<i64, T>)
        ensures
            res@ == self@,
    {
        &self.0
    }
}

/// An array that is written as `{}` when empty, and may be written as its
/// single item when it has one.
pub enum AdaptiveArray<T> {
    Array(Vec<T>),
    Item(T),
    Empty {},
}

/// A value that is written as `{}` when it is absent.
pub enum OptionMap<T> {
    Absent {},
    Present(T),
}

} // verus!
