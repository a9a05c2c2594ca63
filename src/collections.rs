use vstd::prelude::*;

use crate::address::Topic;
use crate::id::{Identifier, IdentifierV};

verus! {

/// A map from byte strings to byte strings.
#[verifier::external_body]
pub struct ByteMap {
    inner: hashbrown::HashMap<Vec<u8>, Vec<u8>>,
}

/// What a `ByteMap` holds.
pub uninterp spec fn byte_map_contents(m: ByteMap) -> Map<Seq<u8>, Seq<u8>>;

impl View for ByteMap {
    type V = Map<Seq<u8>, Seq<u8>>;

    open spec fn view(&self) -> Map<Seq<u8>, Seq<u8>> {
        byte_map_contents(*self)
    }
}

impl ByteMap {
    /// Relies on hashbrown::HashMap::new: an empty map.
    #[verifier::external_body]
    pub(crate) fn new() -> (r: ByteMap)
        ensures
            r@.dom() == Set::<Seq<u8>>::empty(),
    {
        ByteMap { inner: hashbrown::HashMap::new() }
    }

    /// Relies on hashbrown::HashMap::get: the value stored under a key equal to `key`,
    /// copied; byte strings are equal when their bytes are.
    #[verifier::external_body]
    pub(crate) fn get(&self, key: &[u8]) -> (r: Option<Vec<u8>>)
        ensures
            r matches Some(v) ==> byte_map_contents(*self).contains_key(key@) && byte_map_contents(*self)[key@] == v@,
            r is None ==> !byte_map_contents(*self).contains_key(key@),
    {
        self.inner.get(key).cloned()
    }

    /// Relies on hashbrown::HashMap::contains_key.
    #[verifier::external_body]
    pub(crate) fn contains_key(&self, key: &[u8]) -> (r: bool)
        ensures
            r == byte_map_contents(*self).contains_key(key@),
    {
        self.inner.contains_key(key)
    }

    /// Stores `value` under `key`; tells whether the key was new. Relies on
    /// hashbrown::HashMap::insert, which returns `None` exactly when the key was absent.
    #[verifier::external_body]
    pub(crate) fn insert(&mut self, key: Vec<u8>, value: Vec<u8>) -> (r: bool)
        ensures
            byte_map_contents(*final(self)) == byte_map_contents(*old(self)).insert(key@, value@),
            r == !byte_map_contents(*old(self)).contains_key(key@),
    {
        self.inner.insert(key, value).is_none()
    }

    /// Removes the value stored under `key`; tells whether there was one. Relies on
    /// hashbrown::HashMap::remove, which returns the removed value.
    #[verifier::external_body]
    pub(crate) fn remove(&mut self, key: &[u8]) -> (r: bool)
        ensures
            byte_map_contents(*final(self)) == byte_map_contents(*old(self)).remove(key@),
            r == byte_map_contents(*old(self)).contains_key(key@),
    {
        self.inner.remove(key).is_some()
    }

    /// Copies of the keys, each once, in the map's own order. Relies on
    /// hashbrown::HashMap::keys, which visits each key once.
    #[verifier::external_body]
    pub(crate) fn keys(&self) -> (r: Vec<Vec<u8>>)
        ensures
            forall|i: int| 0 <= i < r@.len() ==> byte_map_contents(*self).contains_key(#[trigger] r@[i]@),
            forall|k: Seq<u8>| #[trigger] byte_map_contents(*self).contains_key(k) ==> has_bytes(r@, k),
            forall|i: int, j: int| 0 <= i < r@.len() && 0 <= j < r@.len() && i != j ==> #[trigger] r@[i]@ != #[trigger] r@[j]@,
    {
        self.inner.keys().cloned().collect()
    }
}

/// Whether one of the byte strings of `v` is `k`.
pub open spec fn has_bytes(v: Seq<Vec<u8>>, k: Seq<u8>) -> bool {
    exists|i: int| 0 <= i < v.len() && (#[trigger] v[i])@ == k
}

pub open spec fn id_seq_set(s: Seq<Identifier>) -> Set<IdentifierV> {
    Set::new(|x: IdentifierV| exists|i: int| 0 <= i < s.len() && (#[trigger] s[i])@ == x)
}

/// A set of identifiers. Two identifiers are the same member when their values are equal.
#[verifier::external_body]
pub struct IdSet {
    inner: hashbrown::HashSet<Identifier>,
}

/// What an `IdSet` holds.
pub uninterp spec fn id_set_contents(s: IdSet) -> Set<IdentifierV>;

impl View for IdSet {
    type V = Set<IdentifierV>;

    open spec fn view(&self) -> Set<IdentifierV> {
        id_set_contents(*self)
    }
}

impl IdSet {
    /// Relies on hashbrown::HashSet::new: an empty set.
    #[verifier::external_body]
    pub(crate) fn new() -> (r: IdSet)
        ensures
            r@ == Set::<IdentifierV>::empty(),
    {
        IdSet { inner: hashbrown::HashSet::new() }
    }

    /// Relies on hashbrown::HashSet::contains, under `Identifier`'s `==`, which holds
    /// exactly of equal values, and its `Hash`, which equal values share.
    #[verifier::external_body]
    pub(crate) fn contains(&self, id: &Identifier) -> (r: bool)
        ensures
            r == id_set_contents(*self).contains(id@),
    {
        self.inner.contains(id)
    }

    /// Adds `id`; tells whether it was new. Relies on hashbrown::HashSet::insert.
    #[verifier::external_body]
    pub(crate) fn insert(&mut self, id: Identifier) -> (r: bool)
        ensures
            id_set_contents(*final(self)) == id_set_contents(*old(self)).insert(id@),
            r == !id_set_contents(*old(self)).contains(id@),
    {
        self.inner.insert(id)
    }

    /// Removes `id`; tells whether it was there. Relies on hashbrown::HashSet::remove.
    #[verifier::external_body]
    pub(crate) fn remove(&mut self, id: &Identifier) -> (r: bool)
        ensures
            id_set_contents(*final(self)) == id_set_contents(*old(self)).remove(id@),
            r == id_set_contents(*old(self)).contains(id@),
    {
        self.inner.remove(id)
    }

    /// Copies of the members, in the set's own order. Relies on hashbrown::HashSet::iter,
    /// which visits each member once, and on `Identifier::clone`, which keeps the value.
    #[verifier::external_body]
    pub(crate) fn to_vec(&self) -> (r: Vec<Identifier>)
        ensures
            id_seq_set(r@) == id_set_contents(*self),
            forall|i: int, j: int| 0 <= i < r@.len() && 0 <= j < r@.len() && i != j ==> #[trigger] r@[i]@ != #[trigger] r@[j]@,
    {
        self.inner.iter().cloned().collect()
    }
}

pub open spec fn topic_seq_set(s: Seq<Topic>) -> Set<Seq<char>> {
    Set::new(|x: Seq<char>| exists|i: int| 0 <= i < s.len() && (#[trigger] s[i])@ == x)
}

/// A set of topics. Two topics are the same member when their names are equal.
#[verifier::external_body]
pub struct TopicSet {
    inner: hashbrown::HashSet<Topic>,
}

/// What a `TopicSet` holds.
pub uninterp spec fn topic_set_contents(s: TopicSet) -> Set<Seq<char>>;

impl View for TopicSet {
    type V = Set<Seq<char>>;

    open spec fn view(&self) -> Set<Seq<char>> {
        topic_set_contents(*self)
    }
}

impl TopicSet {
    /// Relies on hashbrown::HashSet::new: an empty set.
    #[verifier::external_body]
    pub(crate) fn new() -> (r: TopicSet)
        ensures
            r@ == Set::<Seq<char>>::empty(),
    {
        TopicSet { inner: hashbrown::HashSet::new() }
    }

    /// Relies on hashbrown::HashSet::contains, under `Topic`'s `==` and `Hash`, which
    /// both go by the name.
    #[verifier::external_body]
    pub(crate) fn contains(&self, t: &Topic) -> (r: bool)
        ensures
            r == topic_set_contents(*self).contains(t@),
    {
        self.inner.contains(t)
    }

    /// Adds `t`; tells whether it was new. Relies on hashbrown::HashSet::insert.
    #[verifier::external_body]
    pub(crate) fn insert(&mut self, t: Topic) -> (r: bool)
        ensures
            topic_set_contents(*final(self)) == topic_set_contents(*old(self)).insert(t@),
            r == !topic_set_contents(*old(self)).contains(t@),
    {
        self.inner.insert(t)
    }

    /// Copies of the members, in the set's own order. Relies on hashbrown::HashSet::iter,
    /// which visits each member once, and on `Topic::clone`, which keeps the name.
    #[verifier::external_body]
    pub(crate) fn to_vec(&self) -> (r: Vec<Topic>)
        ensures
            topic_seq_set(r@) == topic_set_contents(*self),
            forall|i: int, j: int| 0 <= i < r@.len() && 0 <= j < r@.len() && i != j ==> #[trigger] r@[i]@ != #[trigger] r@[j]@,
    {
        self.inner.iter().cloned().collect()
    }
}

} // verus!
