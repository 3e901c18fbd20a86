//! The indirect layout: the values lie packed in a dense array, and each
//! occupied slot holds the index of its value there.

use crate::model::alike;
use crate::model::by_ref;
use crate::model::same_shape;
use crate::model::swap_removed;
use crate::model::Arena;
use crate::model::Entry;
use crate::Generation;
use crate::Key;
use std::collections::VecDeque;
use std::ops::Index;
use std::ops::IndexMut;
use vstd::pervasive::unreached;
use vstd::prelude::*;
use vstd::relations::injective_on;
use vstd::set_lib::lemma_int_range;
use vstd::set_lib::lemma_map_size;
use vstd::set_lib::set_int_range;
use vstd::std_specs::iter::DoubleEndedIteratorSpecImpl;
use vstd::std_specs::iter::IteratorSpecImpl;

verus! {

/// One entry of the dense array: a value and the key that reaches it.
pub struct Item<T> {
    pub value: T,
    pub key: Key,
}

impl<T> Item<T> {
    /// The entry as a pair.
    pub open spec fn pair(self) -> (Key, T) {
        (self.key, self.value)
    }
}

/// The entries of a run of the dense array as pairs.
pub open spec fn pairs_of<T>(items: Seq<Item<T>>) -> Seq<(Key, T)> {
    items.map_values(|item: Item<T>| item.pair())
}

/// One position of the slot array.
#[derive(Clone, Copy)]
pub enum Slot {
    /// Holds the index of the position's value in the dense array.
    Occupied(usize),
    /// Holds the generation that the next occupant's key will carry.
    Vacant(Generation),
}

impl Slot {
    /// The indirect index that an occupied slot holds.
    pub fn unwrap_occupied(self) -> (index: usize)
        requires
            self is Occupied,
        ensures
            self == Slot::Occupied(index),
    {
        match self {
            Slot::Occupied(index) => index,
            Slot::Vacant(_) => unreached(),
        }
    }
}

/// A slot map that keeps its values next to each other.
///
/// Lookup goes through one level of indirection. Removal moves the last value
/// of the dense array into the gap, so the order of the values is not kept,
/// but iteration touches occupied entries only.
pub struct SlotMap<T> {
    items: Vec<Item<T>>,
    slots: Vec<Slot>,
    free: Vec<usize>,
}

/// The abstract slot that a slot of this layout stands for, given the dense
/// array that it points into.
spec fn entry_of<T>(slot: Slot, items: Seq<Item<T>>) -> Entry<T> {
    match slot {
        Slot::Occupied(index) => Entry::Occupied {
            generation: items[index as int].key.generation,
            value: items[index as int].value,
        },
        Slot::Vacant(generation) => Entry::Vacant { generation },
    }
}

impl<T> View for SlotMap<T> {
    type V = Arena<T>;

    closed spec fn view(&self) -> Arena<T> {
        Arena {
            slots: Seq::new(self.slots@.len(), |p: int| entry_of(self.slots@[p], self.items@)),
            free: self.free@,
        }
    }
}

impl<T> SlotMap<T> {
    /// The dense array in its current order: each value with its key.
    pub closed spec fn entries(&self) -> Seq<(Key, T)> {
        pairs_of(self.items@)
    }

    /// The index into the dense array that the slot at position `p` holds, if
    /// it is occupied.
    pub closed spec fn indirect_index(&self, p: int) -> Option<int> {
        if 0 <= p < self.slots@.len() {
            match self.slots@[p] {
                Slot::Occupied(index) => Some(index as int),
                Slot::Vacant(_) => None,
            }
        } else {
            None
        }
    }

    /// The slot at position `p` is vacant, or it points to a dense entry that
    /// is owned by position `p`.
    pub open spec fn slot_linked(&self, p: int) -> bool {
        match self.indirect_index(p) {
            Some(i) => 0 <= i < self.entries().len() && self.entries()[i].0.index == p,
            None => self@.slots[p] is Vacant,
        }
    }

    /// The slot at the position that owns the dense entry at `i` points back
    /// to `i`.
    pub open spec fn entry_linked(&self, i: int) -> bool {
        self.indirect_index(self.entries()[i].0.index as int) == Some(i)
    }

    /// Slots and dense entries point at each other.
    pub open spec fn linked(&self) -> bool {
        &&& forall|p: int| 0 <= p < self@.slots.len() ==> #[trigger] self.slot_linked(p)
        &&& forall|i: int| 0 <= i < self.entries().len() ==> #[trigger] self.entry_linked(i)
    }

    /// The free stack lists exactly the vacant slots, and slots and dense
    /// entries are linked. Every map that this module hands out is well
    /// formed, and every method keeps it so.
    pub open spec fn wf(&self) -> bool {
        &&& self@.wf()
        &&& self.linked()
    }

    /// The two maps have the same slots and the same free stack.
    pub closed spec fn same_directory(&self, other: &SlotMap<T>) -> bool {
        self.slots@ == other.slots@ && self.free@ == other.free@
    }

    /// The dense array holds exactly the live pairs, each once: every entry's
    /// key reaches the entry's value, every live key has its entry, and there
    /// are as many entries as the map has values.
    pub proof fn lemma_entries_are_live(&self)
        requires
            self.wf(),
        ensures
            self.entries().len() == self@.len(),
            forall|i: int|
                0 <= i < self.entries().len() ==> self@.get((#[trigger] self.entries()[i]).0)
                    == Some(self.entries()[i].1),
            forall|key: Key|
                self@.contains_key(key) ==> {
                    let i = self.indirect_index(key.index as int)->0;
                    0 <= i < self.entries().len() && self.entries()[i].0 == key
                },
            forall|i: int, j: int|
                0 <= i < j < self.entries().len() ==> self.entries()[i].0 != self.entries()[j].0,
    {
        let n = self.entries().len() as int;
        let owner = |i: int| self.entries()[i].0.index as int;
        let indexes = set_int_range(0, n);
        let occupied = self@.occupied();
        lemma_int_range(0, n);
        self@.lemma_len_counts_live_keys();
        assert forall|i: int| 0 <= i < n implies self@.get((#[trigger] self.entries()[i]).0)
            == Some(self.entries()[i].1) by {
            assert(self.entry_linked(i));
        }
        assert forall|i: int, j: int| 0 <= i < j < n implies self.entries()[i].0
            != self.entries()[j].0 by {
            assert(self.entry_linked(i) && self.entry_linked(j));
        }
        assert forall|key: Key| self@.contains_key(key) implies {
            let i = self.indirect_index(key.index as int)->0;
            0 <= i < n && self.entries()[i].0 == key
        } by {
            assert(self.slot_linked(key.index as int));
        }
        assert(indexes.map(owner) =~= occupied) by {
            assert forall|p: int| occupied.contains(p) implies indexes.map(owner).contains(p) by {
                let i = self.indirect_index(p)->0;
                assert(self.slot_linked(p));
                assert(indexes.contains(i) && owner(i) == p);
            }
            assert forall|p: int| indexes.map(owner).contains(p) implies occupied.contains(p) by {
                let i = choose|i: int| indexes.contains(i) && owner(i) == p;
                assert(self.entry_linked(i));
            }
        }
        assert(injective_on(owner, indexes)) by {
            assert forall|i: int, j: int|
                indexes.contains(i) && indexes.contains(j) && owner(i) == owner(j) implies i
                == j by {
                assert(self.entry_linked(i) && self.entry_linked(j));
            }
        }
        lemma_map_size(indexes, occupied, owner);
    }

    /// Writing values in place keeps the map well formed: a map with the
    /// same slots and free stack, whose dense array holds the same keys in
    /// the same places, has the same live keys under the same generations.
    pub proof fn lemma_rewritten(&self, after: &SlotMap<T>)
        requires
            self.wf(),
            after.same_directory(self),
            after.entries().len() == self.entries().len(),
            forall|i: int|
                0 <= i < self.entries().len() ==> (#[trigger] after.entries()[i]).0
                    == self.entries()[i].0,
        ensures
            after.wf(),
            after@.free == self@.free,
            same_shape(self@.slots, after@.slots),
            forall|key: Key| after@.contains_key(key) == self@.contains_key(key),
    {
        assert(after@.slots.len() == self@.slots.len());
        assert forall|p: int| 0 <= p < self@.slots.len() implies #[trigger] after.slot_linked(p)
            && alike(self@.slots[p], after@.slots[p]) by {
            assert(self.slot_linked(p));
            match self.indirect_index(p) {
                Some(i) => {
                    assert(after.entries()[i].0 == self.entries()[i].0);
                },
                None => {},
            }
        }
        assert forall|p: int| 0 <= p < self@.slots.len() implies alike(
            #[trigger] self@.slots[p],
            after@.slots[p],
        ) by {
            assert(after.slot_linked(p));
        }
        assert forall|i: int| 0 <= i < after.entries().len() implies after.entry_linked(i) by {
            assert(after.entries()[i].0 == self.entries()[i].0);
            assert(self.entry_linked(i));
        }
        assert(same_shape(self@.slots, after@.slots));
        self@.lemma_same_shape(after@);
    }

    /// `after` is this map with another value in the dense entry at `i`.
    spec fn written(&self, after: SlotMap<T>, i: int) -> bool {
        &&& after.slots@ == self.slots@
        &&& after.free@ == self.free@
        &&& after.items@ == self.items@.update(
            i,
            Item { value: after.items@[i].value, key: self.items@[i].key },
        )
    }

    /// Writing a value in place changes that value and nothing else.
    proof fn lemma_written(&self, after: SlotMap<T>, key: Key, i: int)
        requires
            self.wf(),
            self.written(after, i),
            self.indirect_index(key.index as int) == Some(i),
            self@.contains_key(key),
        ensures
            after.wf(),
            after@ == self@.set(key, after.items@[i].value),
            after.entries() == self.entries().update(i, (key, after.items@[i].value)),
    {
        let value = after.items@[i].value;
        assert(self.slot_linked(key.index as int));
        assert(after.entries() =~= self.entries().update(i, (key, value)));
        self.lemma_rewritten(&after);
        assert(after@ =~= self@.set(key, value)) by {
            assert forall|p: int| 0 <= p < after@.slots.len() implies after@.slots[p]
                == self@.set(key, value).slots[p] by {
                assert(self.slot_linked(p));
            }
        }
    }

    /// An empty map.
    pub fn new() -> (map: SlotMap<T>)
        ensures
            map.wf(),
            map@ == Arena::<T>::empty(),
            map.entries() == Seq::<(Key, T)>::empty(),
    {
        let map = SlotMap { items: Vec::new(), slots: Vec::new(), free: Vec::new() };
        assert(map@ =~= Arena::<T>::empty());
        assert(map.entries() =~= Seq::<(Key, T)>::empty());
        map
    }

    /// Inserts a value and returns the key that reaches it.
    ///
    /// The most recently vacated position is reused if there is one;
    /// otherwise the map grows by one position. The value goes to the end of
    /// the dense array.
    pub fn insert(&mut self, value: T) -> (key: Key)
        requires
            old(self).wf(),
        ensures
            final(self).wf(),
            key == old(self)@.next_key(),
            final(self)@ == old(self)@.insert(value),
            !old(self)@.contains_key(key),
            final(self)@.get(key) == Some(value),
            final(self).entries() == old(self).entries().push((key, value)),
    {
        let key = match self.free.pop() {
            Some(index) => {
                assert(old(self)@.vacant_at(old(self)@.free[old(self)@.free.len() - 1] as int));
                match self.slots[index] {
                    Slot::Vacant(generation) => {
                        let key = Key { index, generation };
                        self.items.push(Item { value, key });
                        self.slots[index] = Slot::Occupied(self.items.len() - 1);
                        key
                    },
                    Slot::Occupied(_) => unreached(),
                }
            },
            None => {
                let key = Key { index: self.slots.len(), generation: Generation(0) };
                self.items.push(Item { value, key });
                self.slots.push(Slot::Occupied(self.items.len() - 1));
                key
            },
        };
        proof {
            assert(self.entries() =~= old(self).entries().push((key, value)));
            assert(self@ =~= old(self)@.insert(value)) by {
                assert forall|p: int| 0 <= p < self@.slots.len() implies self@.slots[p]
                    == old(self)@.insert(value).slots[p] by {
                    if p != key.index {
                        assert(old(self).slot_linked(p));
                    }
                }
            }
            assert(self.slots.len() == self@.slots.len());
            old(self)@.lemma_insert_keeps_wf(value);
            old(self)@.lemma_insert_get(value);
            assert forall|p: int| 0 <= p < self@.slots.len() implies self.slot_linked(p) by {
                if p != key.index {
                    assert(old(self).slot_linked(p));
                }
            }
            assert forall|i: int| 0 <= i < self.entries().len() implies self.entry_linked(i) by {
                if i < old(self).entries().len() {
                    assert(old(self).entry_linked(i));
                }
            }
        }
        key
    }

    /// Removes the value that `key` reaches and returns it.
    ///
    /// With a stale or unknown key nothing changes and nothing is returned, so
    /// removing twice is harmless. Otherwise the last entry of the dense array
    /// moves into the place of the removed one.
    pub fn remove(&mut self, key: Key) -> (value: Option<T>)
        requires
            old(self).wf(),
            old(self)@.contains_key(key) ==> key.generation.0 < u64::MAX,
        ensures
            final(self).wf(),
            value == old(self)@.get(key),
            final(self)@ == old(self)@.remove(key),
            final(self)@.get(key) is None,
            old(self)@.contains_key(key) ==> {
                let i = old(self).indirect_index(key.index as int)->0;
                &&& 0 <= i < old(self).entries().len()
                &&& old(self).entries()[i].0 == key
                &&& final(self).entries() == swap_removed(old(self).entries(), i)
            },
            !old(self)@.contains_key(key) ==> final(self).entries() == old(self).entries(),
    {
        if self.get(key).is_some() {
            let indirect_index = self.slots[key.index].unwrap_occupied();
            let ghost last = self.items@.len() - 1;
            proof {
                assert(old(self).slot_linked(key.index as int));
                assert(old(self).entry_linked(last));
            }
            self.free.push(key.index);
            self.slots[key.index] = Slot::Vacant(key.generation.next());
            let value = if indirect_index == self.items.len() - 1 {
                match self.items.pop() {
                    Some(item) => item.value,
                    None => unreached(),
                }
            } else {
                let last_item_index = self.items[self.items.len() - 1].key.index;
                self.slots[last_item_index] = Slot::Occupied(indirect_index);
                self.items.swap_remove(indirect_index).value
            };
            proof {
                assert(self.entries() =~= swap_removed(
                    old(self).entries(),
                    indirect_index as int,
                ));
                assert(self@ =~= old(self)@.remove(key)) by {
                    assert forall|p: int| 0 <= p < self@.slots.len() implies self@.slots[p]
                        == old(self)@.remove(key).slots[p] by {
                        if p != key.index {
                            assert(old(self).slot_linked(p));
                        }
                    }
                }
                old(self)@.lemma_remove_keeps_wf(key);
                assert forall|p: int| 0 <= p < self@.slots.len() implies self.slot_linked(p) by {
                    if p != key.index {
                        assert(old(self).slot_linked(p));
                    }
                }
                assert forall|i: int| 0 <= i < self.entries().len() implies self.entry_linked(
                    i,
                ) by {
                    assert(old(self).entry_linked(i));
                }
            }
            Some(value)
        } else {
            None
        }
    }

    /// The value that `key` reaches, if it reaches one.
    pub fn get(&self, key: Key) -> (value: Option<&T>)
        requires
            self.wf(),
        ensures
            match value {
                Some(v) => self@.get(key) == Some(*v),
                None => self@.get(key) is None,
            },
    {
        if key.index < self.slots.len() {
            match self.slots[key.index] {
                Slot::Occupied(indirect_index) => {
                    assert(self.slot_linked(key.index as int));
                    if self.items[indirect_index].key.generation == key.generation {
                        Some(&self.items[indirect_index].value)
                    } else {
                        None
                    }
                },
                Slot::Vacant(_) => None,
            }
        } else {
            None
        }
    }

    /// The value that `key` reaches, for writing.
    ///
    /// Whatever is written through the result replaces the value; nothing
    /// else in the map changes.
    pub fn get_mut(&mut self, key: Key) -> (value: Option<&mut T>)
        requires
            old(self).wf(),
        ensures
            final(self).wf(),
            match value {
                Some(v) => {
                    let i = old(self).indirect_index(key.index as int)->0;
                    &&& old(self)@.get(key) == Some(*v)
                    &&& final(self)@ == old(self)@.set(key, *final(v))
                    &&& 0 <= i < old(self).entries().len()
                    &&& old(self).entries()[i] == (key, *v)
                    &&& final(self).entries() == old(self).entries().update(i, (key, *final(v)))
                },
                None => {
                    &&& old(self)@.get(key) is None
                    &&& final(self)@ == old(self)@
                    &&& final(self).entries() == old(self).entries()
                },
            },
    {
        if key.index < self.slots.len() {
            match self.slots[key.index] {
                Slot::Occupied(indirect_index) => {
                    assert(self.slot_linked(key.index as int));
                    if self.items[indirect_index].key.generation == key.generation {
                        proof {
                            let i = indirect_index as int;
                            assert forall|after: SlotMap<T>| self.written(after, i) implies (
                            #[trigger] after.wf()) && after@ == self@.set(
                                key,
                                after.items@[i].value,
                            ) && after.entries() == self.entries().update(
                                i,
                                (key, after.items@[i].value),
                            ) by {
                                self.lemma_written(after, key, i);
                            }
                        }
                        Some(&mut self.items[indirect_index].value)
                    } else {
                        None
                    }
                },
                Slot::Vacant(_) => None,
            }
        } else {
            None
        }
    }

    /// The number of values held.
    pub fn len(&self) -> (n: usize)
        requires
            self.wf(),
        ensures
            n == self@.len(),
            n == self@.as_map().dom().len(),
            n == self.entries().len(),
    {
        proof {
            self.lemma_entries_are_live();
            self@.lemma_len_counts_live_keys();
        }
        self.items.len()
    }

    /// Whether the map holds no value.
    pub fn is_empty(&self) -> (empty: bool)
        requires
            self.wf(),
        ensures
            empty <==> self@.len() == 0,
    {
        proof {
            self.lemma_entries_are_live();
        }
        self.items.len() == 0
    }

    /// Whether `key` reaches a value.
    pub fn contains_key(&self, key: Key) -> (live: bool)
        requires
            self.wf(),
        ensures
            live == self@.contains_key(key),
    {
        self.get(key).is_some()
    }

    /// Removes every value for which `f` answers false.
    ///
    /// The values that stay keep their keys. Their order in the dense array
    /// may change, since each removal moves the last entry into the gap.
    pub fn retain<F>(&mut self, f: F) where F: Fn((Key, &T)) -> bool
        requires
            old(self).wf(),
            forall|key: Key| #[trigger]
                old(self)@.contains_key(key) ==> key.generation.0 < u64::MAX && f.requires(
                    ((key, &old(self)@.get(key)->0),),
                ),
        ensures
            final(self).wf(),
            forall|key: Key| #[trigger]
                final(self)@.contains_key(key) ==> final(self)@.get(key) == old(self)@.get(key)
                    && f.ensures(((key, &old(self)@.get(key)->0),), true),
            forall|key: Key|
                #[trigger] old(self)@.contains_key(key) && !final(self)@.contains_key(key)
                    ==> f.ensures(((key, &old(self)@.get(key)->0),), false),
            exists|removed: Seq<Key>| final(self)@ == old(self)@.remove_all(removed),
    {
        let ghost mut removed = Seq::<Key>::empty();
        let mut i: usize = 0;
        while i < self.items.len()
            invariant
                self.wf(),
                i <= self.items@.len(),
                self.items@.len() == self.entries().len(),
                forall|key: Key| #[trigger]
                    old(self)@.contains_key(key) ==> key.generation.0 < u64::MAX && f.requires(
                        ((key, &old(self)@.get(key)->0),),
                    ),
                forall|key: Key| #[trigger]
                    self@.contains_key(key) ==> self@.get(key) == old(self)@.get(key),
                forall|key: Key|
                    #[trigger] old(self)@.contains_key(key) && !self@.contains_key(key)
                        ==> f.ensures(((key, &old(self)@.get(key)->0),), false),
                forall|j: int|
                    0 <= j < i ==> f.ensures(
                        (((#[trigger] self.entries()[j]).0, &self.entries()[j].1),),
                        true,
                    ),
                self@ == old(self)@.remove_all(removed),
            decreases self.items@.len() - i,
        {
            let key = self.items[i].key;
            let val = &self.items[i].value;
            proof {
                self.lemma_entries_are_live();
                assert(self.entries()[i as int] == (key, *val));
                assert(self@.contains_key(key));
                assert(old(self)@.contains_key(key));
                assert(old(self)@.get(key) == Some(*val));
            }
            if f((key, val)) {
                i += 1;
            } else {
                let ghost before = *self;
                self.remove(key);
                proof {
                    before@.lemma_remove_map(key);
                    assert(removed.push(key).drop_last() =~= removed);
                    removed = removed.push(key);
                    assert(before.entry_linked(i as int));
                    assert(self.items@.len() == self.entries().len());
                    assert forall|other: Key| #[trigger]
                        self@.contains_key(other) implies self@.get(other) == old(self)@.get(
                        other,
                    ) by {
                        assert(other != key);
                        assert(before@.contains_key(other));
                    }
                    assert forall|other: Key|
                        #[trigger] old(self)@.contains_key(other) && !self@.contains_key(
                            other,
                        ) implies f.ensures(((other, &old(self)@.get(other)->0),), false) by {
                        if other != key {
                            assert(!before@.contains_key(other));
                        }
                    }
                }
            }
        }
        proof {
            self.lemma_entries_are_live();
        }
    }

    /// An iterator over the keys and values, in the order of the dense array.
    pub fn iter(&self) -> (iter: Iter<'_, T>)
        ensures
            iter.pending() == self.entries(),
    {
        let items = self.items.as_slice();
        assert(items@.subrange(0, items@.len() as int) =~= items@);
        Iter { items, front: 0, back: items.len() }
    }

    /// An iterator over the keys and values, in the order of the dense array,
    /// that lets the values be written.
    ///
    /// The dense array is on loan to the iterator: when the borrow ends the
    /// map holds it as the iterator and the references it handed out have
    /// left it. Slots and free stack are as they were.
    pub fn iter_mut(&mut self) -> (iter: IterMut<'_, T>)
        ensures
            iter.pending() == old(self).entries(),
            final(self).entries() == pairs_of(final(iter.lease())@),
            final(self).same_directory(old(self)),
    {
        IterMut { rest: self.items.as_mut_slice() }
    }

    /// An iterator over the values, in the order of the dense array.
    pub fn values(&self) -> (values: Values<'_, T>)
        ensures
            values.pending() == self.entries(),
    {
        Values(self.iter())
    }

    /// An iterator over the values, in the order of the dense array, that
    /// lets them be written. The map is on loan to it as it is to `iter_mut`.
    pub fn values_mut(&mut self) -> (values: ValuesMut<'_, T>)
        ensures
            values.pending() == old(self).entries(),
            final(self).entries() == pairs_of(final(values.lease())@),
            final(self).same_directory(old(self)),
    {
        ValuesMut(self.iter_mut())
    }

    /// An iterator that takes the values out of the map, in the order of the
    /// dense array.
    pub fn into_values(self) -> (values: IntoValues<T>)
        ensures
            values.pending() == self.entries(),
    {
        IntoValues(self.into_iter())
    }

    /// An iterator over the keys, in the order of the dense array.
    pub fn keys(&self) -> (keys: Keys<'_, T>)
        ensures
            keys.pending() == self.entries(),
    {
        Keys(self.iter())
    }
}

impl<T> vstd::std_specs::core::IndexSpecImpl<Key> for SlotMap<T> {
    /// Indexing is for keys that reach a value.
    open spec fn index_req(&self, key: &Key) -> bool {
        self.wf() && self@.contains_key(*key)
    }
}

impl<T> Index<Key> for SlotMap<T> {
    type Output = T;

    /// The value that `key` reaches.
    fn index(&self, key: Key) -> (value: &T)
        ensures
            self@.get(key) == Some(*value),
    {
        self.get(key).unwrap()
    }
}

impl<T> IndexMut<Key> for SlotMap<T> {
    /// The value that `key` reaches, for writing.
    fn index_mut(&mut self, key: Key) -> (value: &mut T)
        requires
            old(self).wf(),
            old(self)@.contains_key(key),
        ensures
            final(self).wf(),
            old(self)@.get(key) == Some(*value),
            final(self)@ == old(self)@.set(key, *final(value)),
            ({
                let i = old(self).indirect_index(key.index as int)->0;
                &&& 0 <= i < old(self).entries().len()
                &&& old(self).entries()[i] == (key, *value)
                &&& final(self).entries() == old(self).entries().update(i, (key, *final(value)))
            }),
    {
        self.get_mut(key).unwrap()
    }
}

impl<T: Clone> Clone for SlotMap<T> {
    /// A map with the same slots, free stack and keys, whose values are
    /// clones of this map's values, in the same order.
    fn clone(&self) -> (copy: SlotMap<T>)
        ensures
            copy.same_directory(self),
            copy.entries().len() == self.entries().len(),
            forall|i: int|
                0 <= i < self.entries().len() ==> (#[trigger] copy.entries()[i]).0
                    == self.entries()[i].0 && cloned(self.entries()[i].1, copy.entries()[i].1),
            self.wf() ==> copy.wf(),
    {
        let mut items: Vec<Item<T>> = Vec::new();
        let mut index: usize = 0;
        while index < self.items.len()
            invariant
                index <= self.items@.len(),
                items@.len() == index,
                forall|i: int|
                    0 <= i < index ==> (#[trigger] items@[i]).key == self.items@[i].key && cloned(
                        self.items@[i].value,
                        items@[i].value,
                    ),
            decreases self.items@.len() - index,
        {
            let item = &self.items[index];
            items.push(Item { value: item.value.clone(), key: item.key });
            index = index + 1;
        }
        let slots = self.slots.clone();
        let free = self.free.clone();
        let copy = SlotMap { items, slots, free };
        proof {
            assert(copy.slots@ =~= self.slots@);
            assert(copy.free@ =~= self.free@);
            if self.wf() {
                self.lemma_rewritten(&copy);
            }
        }
        copy
    }
}

impl<T> Default for SlotMap<T> {
    /// An empty map.
    fn default() -> (map: SlotMap<T>)
        ensures
            map.wf(),
            map@ == Arena::<T>::empty(),
            map.entries() == Seq::<(Key, T)>::empty(),
    {
        SlotMap::new()
    }
}

impl<T> IntoIterator for SlotMap<T> {
    type Item = (Key, T);

    type IntoIter = IntoIter<T>;

    /// An iterator that takes the keys and values out of the map, in the
    /// order of the dense array.
    fn into_iter(self) -> (iter: IntoIter<T>)
        ensures
            iter.pending() == self.entries(),
    {
        let mut items = self.items;
        let mut queue: VecDeque<Item<T>> = VecDeque::new();
        let ghost all = items@;
        while items.len() > 0
            invariant
                items@ + queue@ == all,
            decreases items@.len(),
        {
            let ghost before = items@;
            match items.pop() {
                Some(item) => {
                    queue.push_front(item);
                    proof {
                        assert(items@ + queue@ =~= before + queue@.drop_first());
                    }
                },
                None => {},
            }
        }
        assert(queue@ =~= all);
        IntoIter { items: queue }
    }
}

impl<'a, T> IntoIterator for &'a SlotMap<T> {
    type Item = (Key, &'a T);

    type IntoIter = Iter<'a, T>;

    /// An iterator over the keys and values, in the order of the dense array.
    fn into_iter(self) -> (iter: Iter<'a, T>)
        ensures
            iter.pending() == self.entries(),
    {
        self.iter()
    }
}

impl<'a, T> IntoIterator for &'a mut SlotMap<T> {
    type Item = (Key, &'a mut T);

    type IntoIter = IterMut<'a, T>;

    /// An iterator over the keys and values, in the order of the dense array, that
    /// lets the values be written.
    fn into_iter(self) -> (iter: IterMut<'a, T>)
        ensures
            iter.pending() == old(self).entries(),
            final(self).entries() == pairs_of(final(iter.lease())@),
            final(self).same_directory(old(self)),
    {
        self.iter_mut()
    }
}

/// Borrowing iteration over a map of the indirect layout, from both ends.
pub struct Iter<'a, T> {
    items: &'a [Item<T>],
    front: usize,
    back: usize,
}

impl<'a, T> Iter<'a, T> {
    #[verifier::type_invariant]
    spec fn inv(self) -> bool {
        self.front <= self.back <= self.items@.len()
    }

    /// The keys and values that are still to come, front to back.
    pub closed spec fn pending(self) -> Seq<(Key, T)> {
        pairs_of(self.items@.subrange(self.front as int, self.back as int))
    }
}

impl<'a, T> Iterator for Iter<'a, T> {
    type Item = (Key, &'a T);

    /// Takes the first pending pair.
    fn next(&mut self) -> (item: Option<(Key, &'a T)>)
        ensures
            match item {
                Some((key, value)) => {
                    &&& old(self).pending().len() > 0
                    &&& (key, *value) == old(self).pending().first()
                    &&& final(self).pending() == old(self).pending().drop_first()
                },
                None => old(self).pending().len() == 0 && final(self).pending().len() == 0,
            },
    {
        proof {
            use_type_invariant(&*self);
        }
        if self.front < self.back {
            let index = self.front;
            self.front = index + 1;
            let item = &self.items[index];
            proof {
                assert(old(self).pending().drop_first() =~= self.pending());
                let handed = |pair: (Key, T)| by_ref(pair);
                assert(old(self).pending().map_values(handed).drop_first()
                    =~= self.pending().map_values(handed));
            }
            Some((item.key, &item.value))
        } else {
            None
        }
    }
}

impl<'a, T> IteratorSpecImpl for Iter<'a, T> {
    open spec fn obeys_prophetic_iter_laws(&self) -> bool {
        true
    }

    open spec fn remaining(&self) -> Seq<(Key, &'a T)> {
        self.pending().map_values(|pair: (Key, T)| by_ref(pair))
    }

    open spec fn will_return_none(&self) -> bool {
        true
    }

    open spec fn decrease(&self) -> Option<nat> {
        Some(self.pending().len())
    }

    open spec fn initial_value_relation(&self, init: &Self) -> bool {
        init.pending() == self.pending()
    }

    open spec fn peek(&self, index: int) -> Option<(Key, &'a T)> {
        if 0 <= index < self.pending().len() {
            Some(by_ref(self.pending()[index]))
        } else {
            None
        }
    }
}

impl<'a, T> DoubleEndedIterator for Iter<'a, T> {
    /// Takes the last pending pair.
    fn next_back(&mut self) -> (item: Option<(Key, &'a T)>)
        ensures
            match item {
                Some((key, value)) => {
                    &&& old(self).pending().len() > 0
                    &&& (key, *value) == old(self).pending().last()
                    &&& final(self).pending() == old(self).pending().drop_last()
                },
                None => old(self).pending().len() == 0 && final(self).pending().len() == 0,
            },
    {
        proof {
            use_type_invariant(&*self);
        }
        if self.front < self.back {
            let index = self.back - 1;
            self.back = index;
            let item = &self.items[index];
            proof {
                assert(old(self).pending().drop_last() =~= self.pending());
                let handed = |pair: (Key, T)| by_ref(pair);
                assert(old(self).pending().map_values(handed).drop_last()
                    =~= self.pending().map_values(handed));
            }
            Some((item.key, &item.value))
        } else {
            None
        }
    }
}

impl<'a, T> DoubleEndedIteratorSpecImpl for Iter<'a, T> {
    open spec fn peek_back(&self, index: int) -> Option<(Key, &'a T)> {
        if 0 <= index < self.pending().len() {
            Some(by_ref(self.pending()[self.pending().len() - index - 1]))
        } else {
            None
        }
    }
}

/// Mutably borrowing iteration over a map of the indirect layout, from both
/// ends.
///
/// The iterator holds the dense entries that it has not walked yet. What is
/// written through the values it hands out is what the map holds once the
/// borrow has ended.
pub struct IterMut<'a, T> {
    rest: &'a mut [Item<T>],
}

impl<'a, T> IterMut<'a, T> {
    /// The borrow of the entries that are still to be walked.
    pub closed spec fn lease(self) -> &'a mut [Item<T>] {
        self.rest
    }

    /// The keys and values that are still to come, front to back.
    pub closed spec fn pending(self) -> Seq<(Key, T)> {
        pairs_of(self.rest@)
    }

    /// Once the iterator is no longer used, the entries that it has not
    /// walked stay as they are.
    pub proof fn lemma_released(self)
        requires
            has_resolved(self),
        ensures
            pairs_of(final(self.lease())@) == self.pending(),
    {
    }
}

impl<'a, T> Iterator for IterMut<'a, T> {
    type Item = (Key, &'a mut T);

    /// Takes the first pending pair. Its entry ends up holding the same key
    /// and whatever is written through the value handed out.
    fn next(&mut self) -> (item: Option<(Key, &'a mut T)>)
        ensures
            match item {
                Some((key, value)) => {
                    &&& old(self).pending().len() > 0
                    &&& (key, *value) == old(self).pending().first()
                    &&& final(self).pending() == old(self).pending().drop_first()
                    &&& pairs_of(final(old(self).lease())@) == seq![(key, *final(value))]
                        + pairs_of(final(final(self).lease())@)
                },
                None => {
                    &&& old(self).pending().len() == 0
                    &&& final(self).pending().len() == 0
                    &&& pairs_of(final(old(self).lease())@) == old(self).pending()
                },
            },
    {
        let mut taken: &'a mut [Item<T>] = &mut [];
        core::mem::swap(&mut taken, &mut self.rest);
        if taken.len() == 0 {
            None
        } else {
            let ghost all = taken@;
            let (head, tail) = taken.split_at_mut(1);
            self.rest = tail;
            let item = &mut head[0];
            proof {
                assert(all.subrange(1, all.len() as int) =~= all.drop_first());
                assert(pairs_of(all.drop_first()) =~= pairs_of(all).drop_first());
            }
            Some((item.key, &mut item.value))
        }
    }
}

impl<'a, T> IteratorSpecImpl for IterMut<'a, T> {
    /// The trait's laws speak of the items as values; what holds of the
    /// references that this iterator hands out is stated on `next` itself.
    open spec fn obeys_prophetic_iter_laws(&self) -> bool {
        false
    }

    open spec fn remaining(&self) -> Seq<(Key, &'a mut T)> {
        Seq::empty()
    }

    open spec fn will_return_none(&self) -> bool {
        true
    }

    open spec fn decrease(&self) -> Option<nat> {
        Some(self.pending().len())
    }

    open spec fn initial_value_relation(&self, init: &Self) -> bool {
        true
    }

    open spec fn peek(&self, index: int) -> Option<(Key, &'a mut T)> {
        None
    }
}

impl<'a, T> DoubleEndedIterator for IterMut<'a, T> {
    /// Takes the last pending pair. Its entry ends up holding the same key
    /// and whatever is written through the value handed out.
    fn next_back(&mut self) -> (item: Option<(Key, &'a mut T)>)
        ensures
            match item {
                Some((key, value)) => {
                    &&& old(self).pending().len() > 0
                    &&& (key, *value) == old(self).pending().last()
                    &&& final(self).pending() == old(self).pending().drop_last()
                    &&& pairs_of(final(old(self).lease())@) == pairs_of(
                        final(final(self).lease())@,
                    ).push((key, *final(value)))
                },
                None => {
                    &&& old(self).pending().len() == 0
                    &&& final(self).pending().len() == 0
                    &&& pairs_of(final(old(self).lease())@) == old(self).pending()
                },
            },
    {
        let mut taken: &'a mut [Item<T>] = &mut [];
        core::mem::swap(&mut taken, &mut self.rest);
        if taken.len() == 0 {
            None
        } else {
            let ghost all = taken@;
            let offset = taken.len() - 1;
            let (head, tail) = taken.split_at_mut(offset);
            self.rest = head;
            let item = &mut tail[0];
            proof {
                assert(all.subrange(0, offset as int) =~= all.drop_last());
                assert(pairs_of(all.drop_last()) =~= pairs_of(all).drop_last());
            }
            Some((item.key, &mut item.value))
        }
    }
}

impl<'a, T> DoubleEndedIteratorSpecImpl for IterMut<'a, T> {
    open spec fn peek_back(&self, index: int) -> Option<(Key, &'a mut T)> {
        None
    }
}

/// Consuming iteration over a map of the indirect layout, from both ends.
pub struct IntoIter<T> {
    items: VecDeque<Item<T>>,
}

impl<T> IntoIter<T> {
    /// The keys and values that are still to come, front to back.
    pub closed spec fn pending(self) -> Seq<(Key, T)> {
        pairs_of(self.items@)
    }
}

impl<T> Iterator for IntoIter<T> {
    type Item = (Key, T);

    /// Takes the first pending pair.
    fn next(&mut self) -> (item: Option<(Key, T)>)
        ensures
            match item {
                Some(pair) => {
                    &&& old(self).pending().len() > 0
                    &&& pair == old(self).pending().first()
                    &&& final(self).pending() == old(self).pending().drop_first()
                },
                None => old(self).pending().len() == 0 && final(self).pending().len() == 0,
            },
    {
        match self.items.pop_front() {
            Some(item) => {
                proof {
                    assert(old(self).pending().drop_first() =~= self.pending());
                }
                Some((item.key, item.value))
            },
            None => None,
        }
    }
}

impl<T> IteratorSpecImpl for IntoIter<T> {
    open spec fn obeys_prophetic_iter_laws(&self) -> bool {
        true
    }

    open spec fn remaining(&self) -> Seq<(Key, T)> {
        self.pending()
    }

    open spec fn will_return_none(&self) -> bool {
        true
    }

    open spec fn decrease(&self) -> Option<nat> {
        Some(self.pending().len())
    }

    open spec fn initial_value_relation(&self, init: &Self) -> bool {
        init.pending() == self.pending()
    }

    open spec fn peek(&self, index: int) -> Option<(Key, T)> {
        if 0 <= index < self.pending().len() {
            Some(self.pending()[index])
        } else {
            None
        }
    }
}

impl<T> DoubleEndedIterator for IntoIter<T> {
    /// Takes the last pending pair.
    fn next_back(&mut self) -> (item: Option<(Key, T)>)
        ensures
            match item {
                Some(pair) => {
                    &&& old(self).pending().len() > 0
                    &&& pair == old(self).pending().last()
                    &&& final(self).pending() == old(self).pending().drop_last()
                },
                None => old(self).pending().len() == 0 && final(self).pending().len() == 0,
            },
    {
        match self.items.pop_back() {
            Some(item) => {
                proof {
                    assert(old(self).pending().drop_last() =~= self.pending());
                }
                Some((item.key, item.value))
            },
            None => None,
        }
    }
}

impl<T> DoubleEndedIteratorSpecImpl for IntoIter<T> {
    open spec fn peek_back(&self, index: int) -> Option<(Key, T)> {
        if 0 <= index < self.pending().len() {
            Some(self.pending()[self.pending().len() - index - 1])
        } else {
            None
        }
    }
}

/// The value of a pair by reference: what an iterator over values hands out
/// for a pair that it has pending.
pub open spec fn value_ref<'a, T>(pair: (Key, T)) -> &'a T {
    &pair.1
}

/// The value of a pair.
pub open spec fn value_of<T>(pair: (Key, T)) -> T {
    pair.1
}

/// The key of a pair.
pub open spec fn key_of<T>(pair: (Key, T)) -> Key {
    pair.0
}

/// Iteration over the values of a map, by reference, from both ends.
pub struct Values<'a, T>(Iter<'a, T>);

impl<'a, T> Values<'a, T> {
    /// The keys and values of the entries that are still to come, front to
    /// back.
    pub closed spec fn pending(self) -> Seq<(Key, T)> {
        self.0.pending()
    }
}

impl<'a, T> Iterator for Values<'a, T> {
    type Item = &'a T;

    /// Takes the value of the first pending entry.
    fn next(&mut self) -> (item: Option<&'a T>)
        ensures
            match item {
                Some(first) => {
                    &&& old(self).pending().len() > 0
                    &&& *first == old(self).pending().first().1
                    &&& final(self).pending() == old(self).pending().drop_first()
                },
                None => old(self).pending().len() == 0 && final(self).pending().len() == 0,
            },
    {
        match self.0.next() {
            Some((key, value)) => {
                proof {
                    let handed = |pair: (Key, T)| value_ref(pair);
                    assert(old(self).pending().map_values(handed).drop_first()
                        =~= self.pending().map_values(handed));
                }
                Some(value)
            },
            None => None,
        }
    }
}

impl<'a, T> IteratorSpecImpl for Values<'a, T> {
    open spec fn obeys_prophetic_iter_laws(&self) -> bool {
        true
    }

    open spec fn remaining(&self) -> Seq<&'a T> {
        self.pending().map_values(|pair: (Key, T)| value_ref(pair))
    }

    open spec fn will_return_none(&self) -> bool {
        true
    }

    open spec fn decrease(&self) -> Option<nat> {
        Some(self.pending().len())
    }

    open spec fn initial_value_relation(&self, init: &Self) -> bool {
        init.pending() == self.pending()
    }

    open spec fn peek(&self, index: int) -> Option<&'a T> {
        if 0 <= index < self.pending().len() {
            Some(value_ref(self.pending()[index]))
        } else {
            None
        }
    }
}

impl<'a, T> DoubleEndedIterator for Values<'a, T> {
    /// Takes the value of the last pending entry.
    fn next_back(&mut self) -> (item: Option<&'a T>)
        ensures
            match item {
                Some(last) => {
                    &&& old(self).pending().len() > 0
                    &&& *last == old(self).pending().last().1
                    &&& final(self).pending() == old(self).pending().drop_last()
                },
                None => old(self).pending().len() == 0 && final(self).pending().len() == 0,
            },
    {
        match self.0.next_back() {
            Some((key, value)) => {
                proof {
                    let handed = |pair: (Key, T)| value_ref(pair);
                    assert(old(self).pending().map_values(handed).drop_last()
                        =~= self.pending().map_values(handed));
                }
                Some(value)
            },
            None => None,
        }
    }
}

impl<'a, T> DoubleEndedIteratorSpecImpl for Values<'a, T> {
    open spec fn peek_back(&self, index: int) -> Option<&'a T> {
        if 0 <= index < self.pending().len() {
            Some(value_ref(self.pending()[self.pending().len() - index - 1]))
        } else {
            None
        }
    }
}

/// Iteration that takes the values out of a map, from both ends.
pub struct IntoValues<T>(IntoIter<T>);

impl<T> IntoValues<T> {
    /// The keys and values of the entries that are still to come, front to
    /// back.
    pub closed spec fn pending(self) -> Seq<(Key, T)> {
        self.0.pending()
    }
}

impl<T> Iterator for IntoValues<T> {
    type Item = T;

    /// Takes the value of the first pending entry.
    fn next(&mut self) -> (item: Option<T>)
        ensures
            match item {
                Some(first) => {
                    &&& old(self).pending().len() > 0
                    &&& first == old(self).pending().first().1
                    &&& final(self).pending() == old(self).pending().drop_first()
                },
                None => old(self).pending().len() == 0 && final(self).pending().len() == 0,
            },
    {
        match self.0.next() {
            Some((key, value)) => {
                proof {
                    let handed = |pair: (Key, T)| value_of(pair);
                    assert(old(self).pending().map_values(handed).drop_first()
                        =~= self.pending().map_values(handed));
                }
                Some(value)
            },
            None => None,
        }
    }
}

impl<T> IteratorSpecImpl for IntoValues<T> {
    open spec fn obeys_prophetic_iter_laws(&self) -> bool {
        true
    }

    open spec fn remaining(&self) -> Seq<T> {
        self.pending().map_values(|pair: (Key, T)| value_of(pair))
    }

    open spec fn will_return_none(&self) -> bool {
        true
    }

    open spec fn decrease(&self) -> Option<nat> {
        Some(self.pending().len())
    }

    open spec fn initial_value_relation(&self, init: &Self) -> bool {
        init.pending() == self.pending()
    }

    open spec fn peek(&self, index: int) -> Option<T> {
        if 0 <= index < self.pending().len() {
            Some(value_of(self.pending()[index]))
        } else {
            None
        }
    }
}

impl<T> DoubleEndedIterator for IntoValues<T> {
    /// Takes the value of the last pending entry.
    fn next_back(&mut self) -> (item: Option<T>)
        ensures
            match item {
                Some(last) => {
                    &&& old(self).pending().len() > 0
                    &&& last == old(self).pending().last().1
                    &&& final(self).pending() == old(self).pending().drop_last()
                },
                None => old(self).pending().len() == 0 && final(self).pending().len() == 0,
            },
    {
        match self.0.next_back() {
            Some((key, value)) => {
                proof {
                    let handed = |pair: (Key, T)| value_of(pair);
                    assert(old(self).pending().map_values(handed).drop_last()
                        =~= self.pending().map_values(handed));
                }
                Some(value)
            },
            None => None,
        }
    }
}

impl<T> DoubleEndedIteratorSpecImpl for IntoValues<T> {
    open spec fn peek_back(&self, index: int) -> Option<T> {
        if 0 <= index < self.pending().len() {
            Some(value_of(self.pending()[self.pending().len() - index - 1]))
        } else {
            None
        }
    }
}

/// Iteration over the keys of a map, from both ends.
pub struct Keys<'a, T>(Iter<'a, T>);

impl<'a, T> Keys<'a, T> {
    /// The keys and values of the entries that are still to come, front to
    /// back.
    pub closed spec fn pending(self) -> Seq<(Key, T)> {
        self.0.pending()
    }
}

impl<'a, T> Iterator for Keys<'a, T> {
    type Item = Key;

    /// Takes the key of the first pending entry.
    fn next(&mut self) -> (item: Option<Key>)
        ensures
            match item {
                Some(first) => {
                    &&& old(self).pending().len() > 0
                    &&& first == old(self).pending().first().0
                    &&& final(self).pending() == old(self).pending().drop_first()
                },
                None => old(self).pending().len() == 0 && final(self).pending().len() == 0,
            },
    {
        match self.0.next() {
            Some((key, value)) => {
                proof {
                    let handed = |pair: (Key, T)| key_of(pair);
                    assert(old(self).pending().map_values(handed).drop_first()
                        =~= self.pending().map_values(handed));
                }
                Some(key)
            },
            None => None,
        }
    }
}

impl<'a, T> IteratorSpecImpl for Keys<'a, T> {
    open spec fn obeys_prophetic_iter_laws(&self) -> bool {
        true
    }

    open spec fn remaining(&self) -> Seq<Key> {
        self.pending().map_values(|pair: (Key, T)| key_of(pair))
    }

    open spec fn will_return_none(&self) -> bool {
        true
    }

    open spec fn decrease(&self) -> Option<nat> {
        Some(self.pending().len())
    }

    open spec fn initial_value_relation(&self, init: &Self) -> bool {
        init.pending() == self.pending()
    }

    open spec fn peek(&self, index: int) -> Option<Key> {
        if 0 <= index < self.pending().len() {
            Some(key_of(self.pending()[index]))
        } else {
            None
        }
    }
}

impl<'a, T> DoubleEndedIterator for Keys<'a, T> {
    /// Takes the key of the last pending entry.
    fn next_back(&mut self) -> (item: Option<Key>)
        ensures
            match item {
                Some(last) => {
                    &&& old(self).pending().len() > 0
                    &&& last == old(self).pending().last().0
                    &&& final(self).pending() == old(self).pending().drop_last()
                },
                None => old(self).pending().len() == 0 && final(self).pending().len() == 0,
            },
    {
        match self.0.next_back() {
            Some((key, value)) => {
                proof {
                    let handed = |pair: (Key, T)| key_of(pair);
                    assert(old(self).pending().map_values(handed).drop_last()
                        =~= self.pending().map_values(handed));
                }
                Some(key)
            },
            None => None,
        }
    }
}

impl<'a, T> DoubleEndedIteratorSpecImpl for Keys<'a, T> {
    open spec fn peek_back(&self, index: int) -> Option<Key> {
        if 0 <= index < self.pending().len() {
            Some(key_of(self.pending()[self.pending().len() - index - 1]))
        } else {
            None
        }
    }
}

/// Iteration over the values of a map, for writing, from both ends.
pub struct ValuesMut<'a, T>(IterMut<'a, T>);

impl<'a, T> ValuesMut<'a, T> {
    /// The borrow of the entries that are still to be walked.
    pub closed spec fn lease(self) -> &'a mut [Item<T>] {
        self.0.lease()
    }

    /// The keys and values of the entries that are still to come, front to
    /// back.
    pub closed spec fn pending(self) -> Seq<(Key, T)> {
        self.0.pending()
    }

    /// Once the iterator is no longer used, the entries that it has not
    /// walked stay as they are.
    pub proof fn lemma_released(self)
        requires
            has_resolved(self),
        ensures
            pairs_of(final(self.lease())@) == self.pending(),
    {
    }
}

impl<'a, T> Iterator for ValuesMut<'a, T> {
    type Item = &'a mut T;

    /// Takes the value of the first pending entry. The entry ends up holding
    /// its key and whatever is written through the value handed out.
    fn next(&mut self) -> (item: Option<&'a mut T>)
        ensures
            match item {
                Some(value) => {
                    let key = old(self).pending().first().0;
                    &&& old(self).pending().len() > 0
                    &&& *value == old(self).pending().first().1
                    &&& final(self).pending() == old(self).pending().drop_first()
                    &&& pairs_of(final(old(self).lease())@) == seq![(key, *final(value))]
                        + pairs_of(final(final(self).lease())@)
                },
                None => {
                    &&& old(self).pending().len() == 0
                    &&& final(self).pending().len() == 0
                    &&& pairs_of(final(old(self).lease())@) == old(self).pending()
                },
            },
    {
        match self.0.next() {
            Some((_, value)) => Some(value),
            None => None,
        }
    }
}

impl<'a, T> IteratorSpecImpl for ValuesMut<'a, T> {
    /// The trait's laws speak of the items as values; what holds of the
    /// references that this iterator hands out is stated on `next` itself.
    open spec fn obeys_prophetic_iter_laws(&self) -> bool {
        false
    }

    open spec fn remaining(&self) -> Seq<&'a mut T> {
        Seq::empty()
    }

    open spec fn will_return_none(&self) -> bool {
        true
    }

    open spec fn decrease(&self) -> Option<nat> {
        Some(self.pending().len())
    }

    open spec fn initial_value_relation(&self, init: &Self) -> bool {
        true
    }

    open spec fn peek(&self, index: int) -> Option<&'a mut T> {
        None
    }
}

impl<'a, T> DoubleEndedIterator for ValuesMut<'a, T> {
    /// Takes the value of the last pending entry. The entry ends up holding
    /// its key and whatever is written through the value handed out.
    fn next_back(&mut self) -> (item: Option<&'a mut T>)
        ensures
            match item {
                Some(value) => {
                    let key = old(self).pending().last().0;
                    &&& old(self).pending().len() > 0
                    &&& *value == old(self).pending().last().1
                    &&& final(self).pending() == old(self).pending().drop_last()
                    &&& pairs_of(final(old(self).lease())@) == pairs_of(
                        final(final(self).lease())@,
                    ).push((key, *final(value)))
                },
                None => {
                    &&& old(self).pending().len() == 0
                    &&& final(self).pending().len() == 0
                    &&& pairs_of(final(old(self).lease())@) == old(self).pending()
                },
            },
    {
        match self.0.next_back() {
            Some((_, value)) => Some(value),
            None => None,
        }
    }
}

impl<'a, T> DoubleEndedIteratorSpecImpl for ValuesMut<'a, T> {
    open spec fn peek_back(&self, index: int) -> Option<&'a mut T> {
        None
    }
}

} // verus!
