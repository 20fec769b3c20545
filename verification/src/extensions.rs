//! [`Extensions`] used to store extra data in each socket instance.
//!
//! A type map: at most one value of each type is held, and any value handed out is cloned.
use std::any::{Any, TypeId};
use std::collections::HashMap;
use vstd::prelude::*;

verus! {

/// The underlying heterogeneous map, keyed by the `TypeId` of each stored value.
#[verifier::external_body]
pub struct AnyMap {
    map: HashMap<TypeId, Box<dyn Any + Send + Sync>>,
}

/// How many values the map holds (one per distinct type).
pub uninterp spec fn any_map_len(m: AnyMap) -> nat;

/// Calls `HashMap::new`: the map starts empty.
#[verifier::external_body]
fn any_map_new() -> (m: AnyMap)
    ensures
        any_map_len(m) == 0,
{
    AnyMap { map: HashMap::new() }
}

/// Calls `HashMap::insert` with the key `TypeId::of::<T>()` and returns the previous value of that
/// key, downcast back to `T` (the downcast cannot fail, since only a `T` is ever stored under
/// that key). The map grows by one exactly when no value was there before, an empty map held no
/// previous value, and afterwards the map holds the value inserted, so it is not empty. Which
/// value comes back is not stated (the contents are keyed by a type, which no specification here
/// can name).
#[verifier::external_body]
fn any_map_insert<T: Send + Sync + Clone + 'static>(m: &mut AnyMap, val: T) -> (res: Option<T>)
    ensures
        res is None ==> any_map_len(*final(m)) == any_map_len(*old(m)) + 1,
        res is Some ==> any_map_len(*final(m)) == any_map_len(*old(m)),
        any_map_len(*old(m)) == 0 ==> res is None,
        any_map_len(*final(m)) >= 1,
{
    m.map.insert(TypeId::of::<T>(), Box::new(val)).and_then(|v| v.downcast().ok().map(|b| *b))
}

/// Calls `HashMap::get` with the key `TypeId::of::<T>()` and clones the value found: a value is
/// found only in a map that holds one. Which value it is, is not stated (the map's contents are
/// keyed by a type, which no specification here can name).
#[verifier::external_body]
fn any_map_get<T: Send + Sync + Clone + 'static>(m: &AnyMap) -> (res: Option<T>)
    ensures
        res is Some ==> any_map_len(*m) >= 1,
{
    m.map.get(&TypeId::of::<T>()).and_then(|v| v.downcast_ref::<T>()).cloned()
}

/// Calls `HashMap::remove` with the key `TypeId::of::<T>()`; the map shrinks by one exactly when
/// a value was there.
#[verifier::external_body]
fn any_map_remove<T: Send + Sync + 'static>(m: &mut AnyMap) -> (res: Option<T>)
    ensures
        res is Some ==> any_map_len(*old(m)) >= 1 && any_map_len(*final(m)) == any_map_len(*old(m)) - 1,
        res is None ==> any_map_len(*final(m)) == any_map_len(*old(m)),
{
    m.map.remove(&TypeId::of::<T>()).and_then(|v| v.downcast().ok().map(|b| *b))
}

/// Calls `HashMap::clear`: the map becomes empty.
#[verifier::external_body]
fn any_map_clear(m: &mut AnyMap)
    ensures
        any_map_len(*final(m)) == 0,
{
    m.map.clear()
}

/// Calls `HashMap::len`.
#[verifier::external_body]
fn any_map_count(m: &AnyMap) -> (n: usize)
    ensures
        n == any_map_len(*m),
{
    m.map.len()
}

/// A type map of protocol extensions.
///
/// Holds at most one value of each type. Values are cloned when read.
pub struct Extensions {
    map: AnyMap,
}

impl Extensions {
    /// The number of values held.
    pub closed spec fn spec_len(&self) -> nat {
        any_map_len(self.map)
    }

    /// Create an empty `Extensions`.
    pub fn new() -> (e: Extensions)
        ensures
            e.spec_len() == 0,
    {
        Extensions { map: any_map_new() }
    }

    /// Insert a value into this `Extensions`.
    ///
    /// If a value of this type was already held, it is replaced and returned; otherwise the
    /// number of held values grows by one. Empty extensions held no previous value, and afterwards
    /// the value is held.
    pub fn insert<T: Send + Sync + Clone + 'static>(&mut self, val: T) -> (res: Option<T>)
        ensures
            res is None ==> final(self).spec_len() == old(self).spec_len() + 1,
            res is Some ==> final(self).spec_len() == old(self).spec_len(),
            old(self).spec_len() == 0 ==> res is None,
            final(self).spec_len() >= 1,
    {
        any_map_insert(&mut self.map, val)
    }

    /// Get a clone of the value of type `T` previously inserted, if any (none is found in empty
    /// extensions).
    pub fn get<T: Send + Sync + Clone + 'static>(&self) -> (res: Option<T>)
        ensures
            res is Some ==> self.spec_len() >= 1,
    {
        any_map_get(&self.map)
    }

    /// Remove the value of type `T`, returning it if there was one; the number of held values
    /// then shrinks by one.
    pub fn remove<T: Send + Sync + 'static>(&mut self) -> (res: Option<T>)
        ensures
            res is Some ==> old(self).spec_len() >= 1 && final(self).spec_len() == old(self).spec_len() - 1,
            res is None ==> final(self).spec_len() == old(self).spec_len(),
    {
        any_map_remove(&mut self.map)
    }

    /// Remove every held value.
    pub fn clear(&mut self)
        ensures
            final(self).spec_len() == 0,
    {
        any_map_clear(&mut self.map)
    }

    /// Whether no value is held.
    pub fn is_empty(&self) -> (b: bool)
        ensures
            b == (self.spec_len() == 0),
    {
        any_map_count(&self.map) == 0
    }

    /// The number of held values.
    pub fn len(&self) -> (n: usize)
        ensures
            n == self.spec_len(),
    {
        any_map_count(&self.map)
    }
}

} // verus!
