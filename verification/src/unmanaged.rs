//! A dense map from indices to values that does not track which keys are
//! valid, and returns a default value for keys it has never stored.

use vstd::prelude::*;

use std::marker::PhantomData;

use crate::index::{NodeIndex, PortIndex};

verus! {

/// Keys of a dense map: values with a position.
pub trait MapKey: Copy {
    /// The position of the key.
    spec fn key_pos(self) -> nat;

    /// Returns the position of the key.
    fn key_index(self) -> (r: usize)
        ensures
            r == self.key_pos(),
            r < usize::MAX,
    ;
}

impl MapKey for NodeIndex {
    open spec fn key_pos(self) -> nat {
        self@
    }

    fn key_index(self) -> (r: usize) {
        self.index()
    }
}

impl MapKey for PortIndex {
    open spec fn key_pos(self) -> nat {
        self@
    }

    fn key_index(self) -> (r: usize) {
        self.index()
    }
}

/// A map from keys to values stored densely in a vector. Keys past the end
/// of the vector map to the default value.
#[derive(Debug)]
pub struct UnmanagedDenseMap<K, V> {
    data: Vec<V>,
    default: V,
    _marker: PhantomData<K>,
}

impl<K: MapKey, V: Clone> UnmanagedDenseMap<K, V> {
    /// The value stored for position `i`, or the default.
    pub closed spec fn value_at(self, i: nat) -> V {
        if i < self.data@.len() {
            self.data@[i as int]
        } else {
            self.default
        }
    }

    /// The value returned for keys that were never stored.
    pub closed spec fn default_value(self) -> V {
        self.default
    }

    /// The number of stored positions.
    pub closed spec fn stored_len(self) -> nat {
        self.data@.len()
    }

    /// A key past the stored positions reads as the default value.
    pub proof fn lemma_unset_is_default(self, i: nat)
        requires
            i >= self.stored_len(),
        ensures
            self.value_at(i) == self.default_value(),
    {
    }

    /// Creates an empty map, whose default is the type's default value.
    pub fn new() -> (r: Self)
        where
            V: Default,
        ensures
            r.stored_len() == 0,
            call_ensures(V::default, (), r.default_value()),
            forall|i: nat| #[trigger] r.value_at(i) == r.default_value(),
    {
        UnmanagedDenseMap { data: Vec::new(), default: V::default(), _marker: PhantomData }
    }

    /// Creates an empty map with room for `capacity` values.
    pub fn with_capacity(capacity: usize) -> (r: Self)
        where
            V: Default,
        ensures
            r.stored_len() == 0,
            call_ensures(V::default, (), r.default_value()),
            forall|i: nat| #[trigger] r.value_at(i) == r.default_value(),
    {
        UnmanagedDenseMap { data: Vec::with_capacity(capacity), default: V::default(), _marker: PhantomData }
    }

    /// Builds a map from its stored values and its default value.
    pub fn from_parts(values: Vec<V>, default: V) -> (r: Self)
        ensures
            r.stored_len() == values@.len(),
            r.default_value() == default,
            forall|i: nat| i < values@.len() ==> #[trigger] r.value_at(i) == values@[i as int],
    {
        UnmanagedDenseMap { data: values, default, _marker: PhantomData }
    }

    /// Returns the stored values, by position.
    pub fn values(&self) -> (r: &[V])
        ensures
            r@.len() == self.stored_len(),
            forall|i: int| 0 <= i < r@.len() ==> #[trigger] r@[i] == self.value_at(i as nat),
    {
        self.data.as_slice()
    }

    /// Returns the value given for keys that were never stored.
    pub fn default_ref(&self) -> (r: &V)
        ensures
            *r == self.default_value(),
    {
        &self.default
    }

    /// Returns the value of `key`.
    pub fn get(&self, key: K) -> (r: &V)
        ensures
            *r == self.value_at(key.key_pos()),
    {
        let i = key.key_index();
        if i < self.data.len() {
            &self.data[i]
        } else {
            &self.default
        }
    }

    /// Returns the value of `key` for modification, first storing copies of
    /// the default value up to the key's position if needed.
    pub fn get_mut(&mut self, key: K) -> (r: &mut V)
        ensures
            key.key_pos() < old(self).stored_len() ==> *r == old(self).value_at(key.key_pos()),
            key.key_pos() >= old(self).stored_len() ==> cloned::<V>(old(self).default_value(), *r),
            final(self).value_at(key.key_pos()) == *final(r),
            final(self).default_value() == old(self).default_value(),
            final(self).stored_len() == if key.key_pos() < old(self).stored_len() {
                old(self).stored_len()
            } else {
                key.key_pos() + 1
            },
            forall|j: nat|
                j != key.key_pos() ==> #[trigger] final(self).value_at(j) == old(self).value_at(j) || (
                old(self).stored_len() <= j < final(self).stored_len() && cloned::<V>(
                    old(self).default_value(),
                    final(self).value_at(j),
                )),
    {
        let i = key.key_index();
        let ghost old_data = self.data@;
        while self.data.len() <= i
            invariant
                i == key.key_pos(),
                i < usize::MAX,
                self.default == old(self).default,
                old_data == old(self).data@,
                self.data@.len() >= old_data.len(),
                self.data@.len() <= if i < old_data.len() {
                    old_data.len() as int
                } else {
                    i + 1
                },
                self.data@.subrange(0, old_data.len() as int) == old_data,
                forall|j: int|
                    old_data.len() <= j < self.data@.len() ==> cloned::<V>(
                        self.default,
                        #[trigger] self.data@[j],
                    ),
            decreases i + 1 - self.data@.len(),
        {
            let d = self.default.clone();
            self.data.push(d);
            proof {
                assert(self.data@.subrange(0, old_data.len() as int) =~= old_data);
            }
        }
        proof {
            assert forall|j: int| 0 <= j < old_data.len() implies self.data@[j] == old_data[j] by {
                assert(self.data@[j] == self.data@.subrange(0, old_data.len() as int)[j]);
            }
        }
        &mut self.data[i]
    }
}

} // verus!
