//! Maps and sets keyed by 64-bit identifiers.
//!
//! A table keeps its entries in two dense vectors and finds them through a hash
//! index, so walking a table visits the entries in a fixed order.

use vstd::prelude::*;

verus! {

/// A hash index from identifiers to slot numbers.
#[verifier::external_body]
pub struct IdIndex {
    map: hashbrown::HashMap<u64, usize>,
}

/// The entries that an index holds.
pub uninterp spec fn index_entries(index: IdIndex) -> Map<u64, usize>;

/// `hashbrown::HashMap::new`: a map without entries.
#[verifier::external_body]
fn index_new() -> (r: IdIndex)
    ensures
        forall|id: u64| !index_entries(r).contains_key(id),
{
    IdIndex { map: hashbrown::HashMap::new() }
}

/// `hashbrown::HashMap::get`: the slot stored under the identifier, if there is one.
#[verifier::external_body]
fn index_get(index: &IdIndex, id: u64) -> (r: Option<usize>)
    ensures
        r == (if index_entries(*index).contains_key(id) {
            Some(index_entries(*index)[id])
        } else {
            None
        }),
{
    index.map.get(&id).copied()
}

/// `hashbrown::HashMap::insert`: the identifier now maps to the slot, whatever it
/// mapped to before, and every other entry stays.
#[verifier::external_body]
fn index_insert(index: &mut IdIndex, id: u64, slot: usize)
    ensures
        index_entries(*final(index)) == index_entries(*old(index)).insert(id, slot),
{
    index.map.insert(id, slot);
}

/// `hashbrown::HashMap::remove`: takes the entry of the identifier out and hands back
/// the slot that it held; every other entry stays.
#[verifier::external_body]
fn index_remove(index: &mut IdIndex, id: u64) -> (r: Option<usize>)
    ensures
        index_entries(*final(index)) == index_entries(*old(index)).remove(id),
        r == (if index_entries(*old(index)).contains_key(id) {
            Some(index_entries(*old(index))[id])
        } else {
            None
        }),
{
    index.map.remove(&id)
}

/// A map from identifiers to values.
#[verifier::reject_recursive_types(V)]
pub struct IdTable<V> {
    index: IdIndex,
    keys: Vec<u64>,
    values: Vec<V>,
}

impl<V> View for IdTable<V> {
    type V = Map<u64, V>;

    closed spec fn view(&self) -> Map<u64, V> {
        Map::new(
            |id: u64| index_entries(self.index).contains_key(id),
            |id: u64| self.values@[index_entries(self.index)[id] as int],
        )
    }
}

impl<V> IdTable<V> {
    #[verifier::type_invariant]
    spec fn indexed(&self) -> bool {
        &&& self.keys@.len() == self.values@.len()
        &&& forall|i: int|
            0 <= i < self.keys@.len() ==> #[trigger] index_entries(self.index).contains_key(
                self.keys@[i],
            ) && index_entries(self.index)[self.keys@[i]] == i
        &&& forall|id: u64| #[trigger]
            index_entries(self.index).contains_key(id) ==> index_entries(self.index)[id]
                < self.keys@.len() && self.keys@[index_entries(self.index)[id] as int] == id
    }

    /// The identifiers in the order in which a walk visits them.
    pub closed spec fn order(&self) -> Seq<u64> {
        self.keys@
    }

    /// A table without entries.
    pub fn new() -> (r: Self)
        ensures
            r@ == Map::<u64, V>::empty(),
            r.order() == Seq::<u64>::empty(),
    {
        let r = IdTable { index: index_new(), keys: Vec::new(), values: Vec::new() };
        assert(r@ =~= Map::<u64, V>::empty());
        r
    }

    /// The number of entries. A walk visits every identifier once.
    pub fn len(&self) -> (r: usize)
        ensures
            r == self@.len(),
            r == self.order().len(),
            self.order().no_duplicates(),
            self.order().to_set() == self@.dom(),
            self@.dom().finite(),
    {
        proof {
            use_type_invariant(self);
            assert forall|i: int, j: int| 0 <= i < j < self.keys@.len() implies self.keys@[i]
                != self.keys@[j] by {
                assert(index_entries(self.index).contains_key(self.keys@[i]));
                assert(index_entries(self.index).contains_key(self.keys@[j]));
            }
            assert forall|id: u64| self.keys@.to_set().contains(id) == self@.dom().contains(
                id,
            ) by {
                if self@.dom().contains(id) {
                    assert(self.keys@[index_entries(self.index)[id] as int] == id);
                }
            }
            assert(self.keys@.to_set() =~= self@.dom());
            self.keys@.unique_seq_to_set();
        }
        self.keys.len()
    }

    /// Whether the table has no entries.
    pub fn is_empty(&self) -> (r: bool)
        ensures
            r == self@.dom().is_empty(),
            r == (self@.len() == 0),
    {
        let n: usize = self.len();
        n == 0
    }

    /// The identifier that a walk visits at a position.
    pub fn key_at(&self, i: usize) -> (r: u64)
        requires
            i < self.order().len(),
        ensures
            r == self.order()[i as int],
            self@.contains_key(r),
    {
        proof {
            use_type_invariant(self);
        }
        self.keys[i]
    }

    /// The value that a walk visits at a position.
    pub fn value_at(&self, i: usize) -> (r: &V)
        requires
            i < self.order().len(),
        ensures
            self@.contains_key(self.order()[i as int]),
            *r == self@[self.order()[i as int]],
    {
        proof {
            use_type_invariant(self);
        }
        &self.values[i]
    }

    /// Whether there is an entry under the identifier.
    pub fn contains_key(&self, id: u64) -> (r: bool)
        ensures
            r == self@.contains_key(id),
    {
        index_get(&self.index, id).is_some()
    }

    /// The value under the identifier.
    pub fn get(&self, id: u64) -> (r: Option<&V>)
        ensures
            match r {
                Some(v) => self@.contains_key(id) && *v == self@[id],
                None => !self@.contains_key(id),
            },
    {
        proof {
            use_type_invariant(self);
        }
        match index_get(&self.index, id) {
            Some(slot) => Some(&self.values[slot]),
            None => None,
        }
    }

    /// The value under the identifier, to be changed in place.
    pub fn get_mut(&mut self, id: u64) -> (r: Option<&mut V>)
        ensures
            match r {
                Some(v) => {
                    &&& old(self)@.contains_key(id)
                    &&& *v == old(self)@[id]
                    &&& final(self)@ == old(self)@.insert(id, *final(v))
                    &&& final(self).order() == old(self).order()
                },
                None => {
                    &&& !old(self)@.contains_key(id)
                    &&& *final(self) == *old(self)
                },
            },
    {
        proof {
            use_type_invariant(&*self);
        }
        match index_get(&self.index, id) {
            Some(slot) => Some(&mut self.values[slot]),
            None => None,
        }
    }

    /// Puts a value under the identifier, and hands back the one that was there.
    pub fn insert(&mut self, id: u64, value: V) -> (r: Option<V>)
        ensures
            final(self)@ == old(self)@.insert(id, value),
            r == (if old(self)@.contains_key(id) {
                Some(old(self)@[id])
            } else {
                None
            }),
            final(self).order() == (if old(self)@.contains_key(id) {
                old(self).order()
            } else {
                old(self).order().push(id)
            }),
    {
        proof {
            use_type_invariant(&*self);
        }
        let mut whole: IdTable<V> = IdTable::new();
        core::mem::swap(self, &mut whole);
        proof {
            use_type_invariant(&whole);
        }
        let IdTable { mut index, mut keys, mut values } = whole;
        let ghost before = *old(self);
        match index_get(&index, id) {
            Some(slot) => {
                let mut value = value;
                core::mem::swap(&mut values[slot], &mut value);
                *self = IdTable { index, keys, values };
                assert(self@ =~= before@.insert(id, values@[slot as int]));
                Some(value)
            },
            None => {
                let slot: usize = keys.len();
                index_insert(&mut index, id, slot);
                keys.push(id);
                values.push(value);
                assert forall|i: int| 0 <= i < keys@.len() implies #[trigger] index_entries(
                    index,
                ).contains_key(keys@[i]) && index_entries(index)[keys@[i]] == i by {
                    if i < slot {
                        assert(index_entries(before.index).contains_key(before.keys@[i]));
                    }
                }
                *self = IdTable { index, keys, values };
                assert(self@ =~= before@.insert(id, value));
                None
            },
        }
    }

    /// Takes the entry under the identifier out, and hands back its value.
    pub fn remove(&mut self, id: u64) -> (r: Option<V>)
        ensures
            final(self)@ == old(self)@.remove(id),
            r == (if old(self)@.contains_key(id) {
                Some(old(self)@[id])
            } else {
                None
            }),
    {
        proof {
            use_type_invariant(&*self);
        }
        let mut whole: IdTable<V> = IdTable::new();
        core::mem::swap(self, &mut whole);
        proof {
            use_type_invariant(&whole);
        }
        let IdTable { mut index, mut keys, mut values } = whole;
        let ghost before = *old(self);
        match index_remove(&mut index, id) {
            Some(slot) => {
                let last: usize = keys.len() - 1;
                let moved: u64 = keys[last];
                assert(index_entries(before.index).contains_key(before.keys@[last as int]));
                if slot != last {
                    index_insert(&mut index, moved, slot);
                }
                let _ = keys.swap_remove(slot);
                let value = values.swap_remove(slot);
                assert forall|i: int| 0 <= i < keys@.len() implies #[trigger] index_entries(
                    index,
                ).contains_key(keys@[i]) && index_entries(index)[keys@[i]] == i by {
                    assert(index_entries(before.index).contains_key(before.keys@[i]));
                }
                *self = IdTable { index, keys, values };
                assert(self@ =~= before@.remove(id));
                Some(value)
            },
            None => {
                assert(index_entries(index) =~= index_entries(before.index));
                *self = IdTable { index, keys, values };
                assert(self@ =~= before@.remove(id));
                None
            },
        }
    }

    /// Takes every entry out.
    pub fn clear(&mut self)
        ensures
            final(self)@ == Map::<u64, V>::empty(),
            final(self).order() == Seq::<u64>::empty(),
    {
        *self = IdTable::new();
    }
}

/// A set of identifiers.
pub struct IdSet {
    table: IdTable<()>,
}

impl View for IdSet {
    type V = Set<u64>;

    closed spec fn view(&self) -> Set<u64> {
        self.table@.dom()
    }
}

impl IdSet {
    /// The identifiers in the order in which a walk visits them.
    pub closed spec fn order(&self) -> Seq<u64> {
        self.table.order()
    }

    /// A set without members.
    pub fn new() -> (r: Self)
        ensures
            r@ == Set::<u64>::empty(),
            r.order() == Seq::<u64>::empty(),
    {
        IdSet { table: IdTable::new() }
    }

    /// The number of members. A walk visits every member once.
    pub fn len(&self) -> (r: usize)
        ensures
            r == self@.len(),
            r == self.order().len(),
            self.order().no_duplicates(),
            self.order().to_set() == self@,
            self@.finite(),
    {
        self.table.len()
    }

    /// Whether the set has no members.
    pub fn is_empty(&self) -> (r: bool)
        ensures
            r == self@.is_empty(),
    {
        self.table.is_empty()
    }

    /// The member that a walk visits at a position.
    pub fn key_at(&self, i: usize) -> (r: u64)
        requires
            i < self.order().len(),
        ensures
            r == self.order()[i as int],
            self@.contains(r),
    {
        self.table.key_at(i)
    }

    /// Whether the identifier is a member.
    pub fn contains(&self, id: u64) -> (r: bool)
        ensures
            r == self@.contains(id),
    {
        self.table.contains_key(id)
    }

    /// Makes the identifier a member; says whether it was none before.
    pub fn insert(&mut self, id: u64) -> (r: bool)
        ensures
            final(self)@ == old(self)@.insert(id),
            r == !old(self)@.contains(id),
            final(self).order() == (if old(self)@.contains(id) {
                old(self).order()
            } else {
                old(self).order().push(id)
            }),
    {
        let previous = self.table.insert(id, ());
        assert(self@ =~= old(self)@.insert(id));
        previous.is_none()
    }

    /// Takes the identifier out; says whether it was a member.
    pub fn remove(&mut self, id: u64) -> (r: bool)
        ensures
            final(self)@ == old(self)@.remove(id),
            r == old(self)@.contains(id),
    {
        let previous = self.table.remove(id);
        assert(self@ =~= old(self)@.remove(id));
        previous.is_some()
    }

    /// Takes every member out.
    pub fn clear(&mut self)
        ensures
            final(self)@ == Set::<u64>::empty(),
            final(self).order() == Seq::<u64>::empty(),
    {
        self.table.clear();
    }
}

} // verus!
