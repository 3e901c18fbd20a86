//! The direct layout: one array of slots, each holding its value in place.

use crate::model::by_ref;
use crate::laws::lemma_pairs_from_back;
use crate::model::pair_at;
use crate::model::pairs;
use crate::model::same_shape;
use crate::model::Arena;
use crate::model::Entry;
use crate::Generation;
use crate::Key;
use std::ops::Index;
use std::ops::IndexMut;
use vstd::pervasive::unreached;
use vstd::prelude::*;
use vstd::std_specs::iter::DoubleEndedIteratorSpecImpl;
use vstd::std_specs::iter::IteratorSpecImpl;

verus! {

/// A slot map implemented with a simple vector of slots.
///
/// Lookup is one indexed access. Iteration scans every slot and skips the
/// vacant ones, so it costs as much as the map has ever held at once.
pub struct SlotMap<T> {
    slots: Vec<Entry<T>>,
    free: Vec<usize>,
}

impl<T> View for SlotMap<T> {
    type V = Arena<T>;

    closed spec fn view(&self) -> Arena<T> {
        Arena { slots: self.slots@, free: self.free@ }
    }
}

impl<T> SlotMap<T> {
    /// The free stack lists exactly the vacant slots, each once. Every map
    /// that this module hands out is well formed, and every method keeps it so.
    pub open spec fn wf(&self) -> bool {
        self@.wf()
    }

    /// An empty map.
    pub fn new() -> (map: SlotMap<T>)
        ensures
            map.wf(),
            map@ == Arena::<T>::empty(),
    {
        let map = SlotMap { slots: Vec::new(), free: Vec::new() };
        assert(map@ =~= Arena::<T>::empty());
        map
    }

    /// Inserts a value and returns the key that reaches it.
    ///
    /// The most recently vacated position is reused if there is one;
    /// otherwise the map grows by one position.
    pub fn insert(&mut self, value: T) -> (key: Key)
        requires
            old(self).wf(),
        ensures
            final(self).wf(),
            key == old(self)@.next_key(),
            final(self)@ == old(self)@.insert(value),
            !old(self)@.contains_key(key),
            final(self)@.get(key) == Some(value),
    {
        let key = match self.free.pop() {
            Some(index) => {
                assert(old(self)@.vacant_at(old(self)@.free[old(self)@.free.len() - 1] as int));
                match self.slots[index] {
                    Entry::Vacant { generation } => {
                        self.slots[index] = Entry::Occupied { generation, value };
                        Key { index, generation }
                    },
                    Entry::Occupied { .. } => unreached(),
                }
            },
            None => {
                let generation = Generation(0);
                self.slots.push(Entry::Occupied { generation, value });
                Key { index: self.slots.len() - 1, generation }
            },
        };
        proof {
            assert(self@ =~= old(self)@.insert(value));
            old(self)@.lemma_insert_keeps_wf(value);
            old(self)@.lemma_insert_get(value);
        }
        key
    }

    /// Removes the value that `key` reaches and returns it.
    ///
    /// With a stale or unknown key nothing changes and nothing is returned, so
    /// removing twice is harmless.
    pub fn remove(&mut self, key: Key) -> (value: Option<T>)
        requires
            old(self).wf(),
            old(self)@.contains_key(key) ==> key.generation.0 < u64::MAX,
        ensures
            final(self).wf(),
            value == old(self)@.get(key),
            final(self)@ == old(self)@.remove(key),
            final(self)@.get(key) is None,
    {
        if self.get(key).is_some() {
            self.free.push(key.index);
            let mut slot = Entry::Vacant { generation: key.generation.next() };
            core::mem::swap(&mut self.slots[key.index], &mut slot);
            proof {
                assert(self@ =~= old(self)@.remove(key));
                old(self)@.lemma_remove_keeps_wf(key);
            }
            match slot {
                Entry::Occupied { value, .. } => Some(value),
                Entry::Vacant { .. } => unreached(),
            }
        } else {
            None
        }
    }

    /// The value that `key` reaches, if it reaches one.
    pub fn get(&self, key: Key) -> (value: Option<&T>)
        ensures
            match value {
                Some(v) => self@.get(key) == Some(*v),
                None => self@.get(key) is None,
            },
    {
        if key.index < self.slots.len() {
            match &self.slots[key.index] {
                Entry::Occupied { generation, value } => {
                    if *generation == key.generation {
                        Some(value)
                    } else {
                        None
                    }
                },
                Entry::Vacant { .. } => None,
            }
        } else {
            None
        }
    }

    /// The value that `key` reaches, for writing.
    ///
    /// Whatever is written through the result replaces the value; nothing
    /// else in the map changes.
    pub fn get_mut(&mut self, key: Key) -> (value: Option<&mut T>)
        requires
            old(self).wf(),
        ensures
            final(self).wf(),
            match value {
                Some(v) => old(self)@.get(key) == Some(*v) && final(self)@ == old(self)@.set(
                    key,
                    *final(v),
                ),
                None => old(self)@.get(key) is None && final(self)@ == old(self)@,
            },
    {
        if key.index < self.slots.len() {
            match &mut self.slots[key.index] {
                Entry::Occupied { generation, value } => {
                    if *generation == key.generation {
                        Some(value)
                    } else {
                        None
                    }
                },
                Entry::Vacant { .. } => None,
            }
        } else {
            None
        }
    }

    /// The number of values held.
    pub fn len(&self) -> (n: usize)
        requires
            self.wf(),
        ensures
            n == self@.len(),
            n == self@.as_map().dom().len(),
    {
        proof {
            self@.lemma_len_counts_live_keys();
        }
        self.slots.len() - self.free.len()
    }

    /// Whether the map holds no value.
    pub fn is_empty(&self) -> (empty: bool)
        requires
            self.wf(),
        ensures
            empty <==> self@.len() == 0,
    {
        self.len() == 0
    }

    /// An iterator over the keys and values, in position order.
    ///
    /// It scans every slot and skips the vacant ones.
    pub fn iter(&self) -> (iter: Iter<'_, T>)
        ensures
            iter.pending() == self@.entries(),
    {
        let slots = self.slots.as_slice();
        assert(slots@.subrange(0, slots@.len() as int) =~= slots@);
        Iter { slots, front: 0, back: slots.len() }
    }

    /// An iterator over the keys and values, in position order, that lets the
    /// values be written.
    ///
    /// The map's slots are on loan to the iterator: when the borrow ends the
    /// map holds them as the iterator and the references it handed out have
    /// left them, and the free stack is as it was.
    pub fn iter_mut(&mut self) -> (iter: IterMut<'_, T>)
        ensures
            iter.front() == 0,
            iter.slots() == old(self)@.slots,
            final(self)@ == (Arena { slots: final(iter.lease())@, free: old(self)@.free }),
    {
        assert(self.slots@.len() == self.slots.len());
        IterMut { rest: self.slots.as_mut_slice(), front: 0 }
    }
}

/// Borrowing iteration over a map of the direct layout, from both ends.
pub struct Iter<'a, T> {
    slots: &'a [Entry<T>],
    front: usize,
    back: usize,
}

impl<'a, T> Iter<'a, T> {
    #[verifier::type_invariant]
    spec fn inv(self) -> bool {
        self.front <= self.back <= self.slots@.len()
    }

    /// The keys and values that are still to come, front to back.
    pub closed spec fn pending(self) -> Seq<(Key, T)> {
        pairs(self.slots@.subrange(self.front as int, self.back as int), self.front as int)
    }
}

impl<'a, T> Iterator for Iter<'a, T> {
    type Item = (Key, &'a T);

    /// Takes the first pending pair.
    fn next(&mut self) -> (item: Option<(Key, &'a T)>)
        ensures
            match item {
                Some((key, value)) => {
                    &&& old(self).pending().len() > 0
                    &&& (key, *value) == old(self).pending().first()
                    &&& final(self).pending() == old(self).pending().drop_first()
                },
                None => old(self).pending().len() == 0 && final(self).pending().len() == 0,
            },
    {
        proof {
            use_type_invariant(&*self);
        }
        while self.front < self.back
            invariant
                old(self).front <= self.front <= self.back <= self.slots@.len(),
                self.back == old(self).back,
                self.pending() == old(self).pending(),
            decreases self.back - self.front,
        {
            let index = self.front;
            let ghost run = self.slots@.subrange(index as int, self.back as int);
            proof {
                assert(run.drop_first() =~= self.slots@.subrange(index + 1, self.back as int));
            }
            self.front = index + 1;
            match &self.slots[index] {
                Entry::Occupied { generation, value } => {
                    proof {
                        let first = (Key { index, generation: *generation }, *value);
                        assert(old(self).pending() =~= seq![first] + self.pending());
                        assert(old(self).pending().drop_first() =~= self.pending());
                        let handed = |pair: (Key, T)| by_ref(pair);
                        assert(old(self).pending().map_values(handed).drop_first()
                            =~= self.pending().map_values(handed));
                    }
                    return Some((Key { index, generation: *generation }, value));
                },
                Entry::Vacant { .. } => {
                    assert(old(self).pending() =~= self.pending());
                },
            }
        }
        proof {
            assert(self.slots@.subrange(self.front as int, self.back as int).len() == 0);
        }
        None
    }
}

impl<'a, T> IteratorSpecImpl for Iter<'a, T> {
    open spec fn obeys_prophetic_iter_laws(&self) -> bool {
        true
    }

    open spec fn remaining(&self) -> Seq<(Key, &'a T)> {
        self.pending().map_values(|pair: (Key, T)| by_ref(pair))
    }

    open spec fn will_return_none(&self) -> bool {
        true
    }

    open spec fn decrease(&self) -> Option<nat> {
        Some(self.pending().len())
    }

    open spec fn initial_value_relation(&self, init: &Self) -> bool {
        init.pending() == self.pending()
    }

    open spec fn peek(&self, index: int) -> Option<(Key, &'a T)> {
        if 0 <= index < self.pending().len() {
            Some(by_ref(self.pending()[index]))
        } else {
            None
        }
    }
}

impl<'a, T> DoubleEndedIterator for Iter<'a, T> {
    /// Takes the last pending pair.
    fn next_back(&mut self) -> (item: Option<(Key, &'a T)>)
        ensures
            match item {
                Some((key, value)) => {
                    &&& old(self).pending().len() > 0
                    &&& (key, *value) == old(self).pending().last()
                    &&& final(self).pending() == old(self).pending().drop_last()
                },
                None => old(self).pending().len() == 0 && final(self).pending().len() == 0,
            },
    {
        proof {
            use_type_invariant(&*self);
        }
        while self.front < self.back
            invariant
                self.front <= self.back <= old(self).back,
                old(self).back <= self.slots@.len(),
                self.front == old(self).front,
                self.pending() == old(self).pending(),
            decreases self.back - self.front,
        {
            let index = self.back - 1;
            let ghost run = self.slots@.subrange(self.front as int, self.back as int);
            proof {
                assert(run.drop_last() =~= self.slots@.subrange(self.front as int, index as int));
                lemma_pairs_from_back(run, self.front as int);
            }
            self.back = index;
            match &self.slots[index] {
                Entry::Occupied { generation, value } => {
                    proof {
                        let last = (Key { index, generation: *generation }, *value);
                        assert(old(self).pending() =~= self.pending() + seq![last]);
                        assert(old(self).pending().drop_last() =~= self.pending());
                        let handed = |pair: (Key, T)| by_ref(pair);
                        assert(old(self).pending().map_values(handed).drop_last()
                            =~= self.pending().map_values(handed));
                    }
                    return Some((Key { index, generation: *generation }, value));
                },
                Entry::Vacant { .. } => {
                    assert(old(self).pending() =~= self.pending());
                },
            }
        }
        proof {
            assert(self.slots@.subrange(self.front as int, self.back as int).len() == 0);
        }
        None
    }
}

impl<'a, T> DoubleEndedIteratorSpecImpl for Iter<'a, T> {
    open spec fn peek_back(&self, index: int) -> Option<(Key, &'a T)> {
        if 0 <= index < self.pending().len() {
            Some(by_ref(self.pending()[self.pending().len() - index - 1]))
        } else {
            None
        }
    }
}

/// Mutably borrowing iteration over a map of the direct layout, from both
/// ends.
///
/// The iterator holds the slots that it has not walked yet. What is written
/// through the values it hands out is what the map holds once the borrow has
/// ended.
pub struct IterMut<'a, T> {
    rest: &'a mut [Entry<T>],
    front: usize,
}

impl<'a, T> IterMut<'a, T> {
    #[verifier::type_invariant]
    spec fn inv(self) -> bool {
        self.front + self.rest@.len() <= usize::MAX
    }

    /// The borrow of the slots that are still to be walked.
    pub closed spec fn lease(self) -> &'a mut [Entry<T>] {
        self.rest
    }

    /// The slots that are still to be walked, as they are now.
    pub closed spec fn slots(self) -> Seq<Entry<T>> {
        self.rest@
    }

    /// The position of the first slot that is still to be walked.
    pub closed spec fn front(self) -> int {
        self.front as int
    }

    /// The keys and values that are still to come, front to back.
    pub open spec fn pending(self) -> Seq<(Key, T)> {
        pairs(self.slots(), self.front())
    }

    /// Once the iterator is no longer used, the slots that it has not walked
    /// stay as they are.
    pub proof fn lemma_released(self)
        requires
            has_resolved(self),
        ensures
            final(self.lease())@ == self.slots(),
    {
    }
}

impl<'a, T> Iterator for IterMut<'a, T> {
    type Item = (Key, &'a mut T);

    /// Takes the first pending pair.
    ///
    /// The slots before it are vacant and stay as they are; its own slot ends
    /// up holding whatever is written through the value handed out.
    fn next(&mut self) -> (item: Option<(Key, &'a mut T)>)
        ensures
            match item {
                Some((key, value)) => {
                    let n = key.index - old(self).front();
                    &&& old(self).pending().len() > 0
                    &&& (key, *value) == old(self).pending().first()
                    &&& final(self).pending() == old(self).pending().drop_first()
                    &&& 0 <= n < old(self).slots().len()
                    &&& forall|j: int| 0 <= j < n ==> old(self).slots()[j] is Vacant
                    &&& old(self).slots()[n] == Entry::Occupied {
                        generation: key.generation,
                        value: *value,
                    }
                    &&& final(self).front() == key.index + 1
                    &&& final(self).slots() == old(self).slots().subrange(
                        n + 1,
                        old(self).slots().len() as int,
                    )
                    &&& final(old(self).lease())@ == old(self).slots().subrange(0, n).push(
                        Entry::Occupied { generation: key.generation, value: *final(value) },
                    ) + final(final(self).lease())@
                },
                None => {
                    &&& old(self).pending().len() == 0
                    &&& forall|j: int|
                        0 <= j < old(self).slots().len() ==> old(self).slots()[j] is Vacant
                    &&& final(self).slots().len() == 0
                    &&& final(old(self).lease())@ == old(self).slots()
                },
            },
    {
        proof {
            use_type_invariant(&*self);
        }
        let ghost mut walked: int = 0;
        loop
            invariant
                0 <= walked <= old(self).slots().len(),
                self.front == old(self).front + walked,
                self.front + self.rest@.len() <= usize::MAX,
                self.rest@ == old(self).slots().subrange(walked, old(self).slots().len() as int),
                forall|j: int| 0 <= j < walked ==> old(self).slots()[j] is Vacant,
                final(old(self).rest)@ == old(self).slots().subrange(0, walked) + final(self.rest)@,
                self.pending() == old(self).pending(),
            decreases self.rest@.len(),
        {
            let ghost run = self.rest@;
            let mut taken: &'a mut [Entry<T>] = &mut [];
            core::mem::swap(&mut taken, &mut self.rest);
            if taken.len() == 0 {
                proof {
                    assert(old(self).slots().subrange(0, walked) =~= old(self).slots());
                }
                return None;
            }
            let (head, tail) = taken.split_at_mut(1);
            self.rest = tail;
            let index = self.front;
            self.front = index + 1;
            proof {
                assert(run.subrange(1, run.len() as int) =~= run.drop_first());
                assert(old(self).pending() == pair_at(run[0], index as int) + self.pending());
            }
            match &mut head[0] {
                Entry::Occupied { generation, value } => {
                    proof {
                        let first = (Key { index, generation: *generation }, *value);
                        assert(old(self).pending() =~= seq![first] + self.pending());
                        assert(old(self).pending().drop_first() =~= self.pending());
                    }
                    return Some((Key { index, generation: *generation }, value));
                },
                Entry::Vacant { .. } => {
                    proof {
                        walked = walked + 1;
                        assert(old(self).pending() =~= self.pending());
                    }
                },
            }
        }
    }
}

impl<'a, T> IteratorSpecImpl for IterMut<'a, T> {
    /// The trait's laws speak of the items as values; what holds of the
    /// references that this iterator hands out is stated on `next` itself.
    open spec fn obeys_prophetic_iter_laws(&self) -> bool {
        false
    }

    open spec fn remaining(&self) -> Seq<(Key, &'a mut T)> {
        Seq::empty()
    }

    open spec fn will_return_none(&self) -> bool {
        true
    }

    open spec fn decrease(&self) -> Option<nat> {
        Some(self.slots().len())
    }

    open spec fn initial_value_relation(&self, init: &Self) -> bool {
        true
    }

    open spec fn peek(&self, index: int) -> Option<(Key, &'a mut T)> {
        None
    }
}

impl<'a, T> DoubleEndedIterator for IterMut<'a, T> {
    /// Takes the last pending pair.
    ///
    /// The slots after it are vacant and stay as they are; its own slot ends
    /// up holding whatever is written through the value handed out.
    fn next_back(&mut self) -> (item: Option<(Key, &'a mut T)>)
        ensures
            final(self).front() == old(self).front(),
            match item {
                Some((key, value)) => {
                    let n = key.index - old(self).front();
                    &&& old(self).pending().len() > 0
                    &&& (key, *value) == old(self).pending().last()
                    &&& final(self).pending() == old(self).pending().drop_last()
                    &&& 0 <= n < old(self).slots().len()
                    &&& forall|j: int|
                        n < j < old(self).slots().len() ==> old(self).slots()[j] is Vacant
                    &&& old(self).slots()[n] == Entry::Occupied {
                        generation: key.generation,
                        value: *value,
                    }
                    &&& final(self).slots() == old(self).slots().subrange(0, n)
                    &&& final(old(self).lease())@ == final(final(self).lease())@.push(
                        Entry::Occupied { generation: key.generation, value: *final(value) },
                    ) + old(self).slots().subrange(n + 1, old(self).slots().len() as int)
                },
                None => {
                    &&& old(self).pending().len() == 0
                    &&& forall|j: int|
                        0 <= j < old(self).slots().len() ==> old(self).slots()[j] is Vacant
                    &&& final(self).slots().len() == 0
                    &&& final(old(self).lease())@ == old(self).slots()
                },
            },
    {
        proof {
            use_type_invariant(&*self);
        }
        let ghost total = self.rest@.len() as int;
        let ghost mut left: int = total;
        loop
            invariant
                total == old(self).slots().len(),
                0 <= left <= total,
                self.front == old(self).front,
                self.front + total <= usize::MAX,
                self.rest@ == old(self).slots().subrange(0, left),
                forall|j: int| left <= j < total ==> old(self).slots()[j] is Vacant,
                final(old(self).rest)@ == final(self.rest)@ + old(self).slots().subrange(
                    left,
                    total,
                ),
                self.pending() == old(self).pending(),
            decreases self.rest@.len(),
        {
            let ghost run = self.rest@;
            let mut taken: &'a mut [Entry<T>] = &mut [];
            core::mem::swap(&mut taken, &mut self.rest);
            if taken.len() == 0 {
                proof {
                    assert(old(self).slots().subrange(0, total) =~= old(self).slots());
                }
                return None;
            }
            let offset = taken.len() - 1;
            let (head, tail) = taken.split_at_mut(offset);
            self.rest = head;
            let index = self.front + offset;
            proof {
                assert(run.subrange(0, offset as int) =~= run.drop_last());
                lemma_pairs_from_back(run, self.front as int);
                assert(old(self).pending() == self.pending() + pair_at(run.last(), index as int));
            }
            match &mut tail[0] {
                Entry::Occupied { generation, value } => {
                    proof {
                        let last = (Key { index, generation: *generation }, *value);
                        assert(old(self).pending() =~= self.pending() + seq![last]);
                        assert(old(self).pending().drop_last() =~= self.pending());
                    }
                    return Some((Key { index, generation: *generation }, value));
                },
                Entry::Vacant { .. } => {
                    proof {
                        left = left - 1;
                        assert(old(self).pending() =~= self.pending());
                    }
                },
            }
        }
    }
}

impl<'a, T> DoubleEndedIteratorSpecImpl for IterMut<'a, T> {
    open spec fn peek_back(&self, index: int) -> Option<(Key, &'a mut T)> {
        None
    }
}

/// Consuming iteration over a map of the direct layout, from both ends.
pub struct IntoIter<T> {
    slots: Vec<Entry<T>>,
    front: usize,
    back: usize,
}

impl<T> IntoIter<T> {
    #[verifier::type_invariant]
    spec fn inv(self) -> bool {
        self.front <= self.back <= self.slots@.len()
    }

    /// The keys and values that are still to come, front to back.
    pub closed spec fn pending(self) -> Seq<(Key, T)> {
        pairs(self.slots@.subrange(self.front as int, self.back as int), self.front as int)
    }
}

impl<T> Iterator for IntoIter<T> {
    type Item = (Key, T);

    /// Takes the first pending pair.
    fn next(&mut self) -> (item: Option<(Key, T)>)
        ensures
            match item {
                Some(pair) => {
                    &&& old(self).pending().len() > 0
                    &&& pair == old(self).pending().first()
                    &&& final(self).pending() == old(self).pending().drop_first()
                },
                None => old(self).pending().len() == 0 && final(self).pending().len() == 0,
            },
    {
        proof {
            use_type_invariant(&*self);
        }
        while self.front < self.back
            invariant
                old(self).front <= self.front <= self.back <= self.slots@.len(),
                self.back == old(self).back,
                self.pending() == old(self).pending(),
            decreases self.back - self.front,
        {
            let index = self.front;
            let ghost before = self.slots@;
            let ghost run = before.subrange(index as int, self.back as int);
            self.front = index + 1;
            let mut slot = Entry::Vacant { generation: Generation(0) };
            core::mem::swap(&mut self.slots[index], &mut slot);
            proof {
                assert(run.drop_first() =~= self.slots@.subrange(index + 1, self.back as int));
                assert(old(self).pending() == pair_at(slot, index as int) + self.pending());
            }
            match slot {
                Entry::Occupied { generation, value } => {
                    proof {
                        let first = (Key { index, generation }, value);
                        assert(old(self).pending() =~= seq![first] + self.pending());
                        assert(old(self).pending().drop_first() =~= self.pending());
                    }
                    return Some((Key { index, generation }, value));
                },
                Entry::Vacant { .. } => {
                    assert(old(self).pending() =~= self.pending());
                },
            }
        }
        proof {
            assert(self.slots@.subrange(self.front as int, self.back as int).len() == 0);
        }
        None
    }
}

impl<T> IteratorSpecImpl for IntoIter<T> {
    open spec fn obeys_prophetic_iter_laws(&self) -> bool {
        true
    }

    open spec fn remaining(&self) -> Seq<(Key, T)> {
        self.pending()
    }

    open spec fn will_return_none(&self) -> bool {
        true
    }

    open spec fn decrease(&self) -> Option<nat> {
        Some(self.pending().len())
    }

    open spec fn initial_value_relation(&self, init: &Self) -> bool {
        init.pending() == self.pending()
    }

    open spec fn peek(&self, index: int) -> Option<(Key, T)> {
        if 0 <= index < self.pending().len() {
            Some(self.pending()[index])
        } else {
            None
        }
    }
}

impl<T> DoubleEndedIterator for IntoIter<T> {
    /// Takes the last pending pair.
    fn next_back(&mut self) -> (item: Option<(Key, T)>)
        ensures
            match item {
                Some(pair) => {
                    &&& old(self).pending().len() > 0
                    &&& pair == old(self).pending().last()
                    &&& final(self).pending() == old(self).pending().drop_last()
                },
                None => old(self).pending().len() == 0 && final(self).pending().len() == 0,
            },
    {
        proof {
            use_type_invariant(&*self);
        }
        while self.front < self.back
            invariant
                self.front <= self.back <= old(self).back,
                old(self).back <= self.slots@.len(),
                self.front == old(self).front,
                self.pending() == old(self).pending(),
            decreases self.back - self.front,
        {
            let index = self.back - 1;
            let ghost before = self.slots@;
            let ghost run = before.subrange(self.front as int, self.back as int);
            proof {
                lemma_pairs_from_back(run, self.front as int);
            }
            self.back = index;
            let mut slot = Entry::Vacant { generation: Generation(0) };
            core::mem::swap(&mut self.slots[index], &mut slot);
            proof {
                assert(run.drop_last() =~= self.slots@.subrange(self.front as int, index as int));
                assert(old(self).pending() == self.pending() + pair_at(slot, index as int));
            }
            match slot {
                Entry::Occupied { generation, value } => {
                    proof {
                        let last = (Key { index, generation }, value);
                        assert(old(self).pending() =~= self.pending() + seq![last]);
                        assert(old(self).pending().drop_last() =~= self.pending());
                    }
                    return Some((Key { index, generation }, value));
                },
                Entry::Vacant { .. } => {
                    assert(old(self).pending() =~= self.pending());
                },
            }
        }
        proof {
            assert(self.slots@.subrange(self.front as int, self.back as int).len() == 0);
        }
        None
    }
}

impl<T> DoubleEndedIteratorSpecImpl for IntoIter<T> {
    open spec fn peek_back(&self, index: int) -> Option<(Key, T)> {
        if 0 <= index < self.pending().len() {
            Some(self.pending()[self.pending().len() - index - 1])
        } else {
            None
        }
    }
}

impl<T> IntoIterator for SlotMap<T> {
    type Item = (Key, T);

    type IntoIter = IntoIter<T>;

    /// An iterator that takes the keys and values out of the map, in position
    /// order.
    fn into_iter(self) -> (iter: IntoIter<T>)
        ensures
            iter.pending() == self@.entries(),
    {
        let slots = self.slots;
        let back = slots.len();
        assert(slots@.subrange(0, slots@.len() as int) =~= slots@);
        IntoIter { slots, front: 0, back }
    }
}

impl<'a, T> IntoIterator for &'a SlotMap<T> {
    type Item = (Key, &'a T);

    type IntoIter = Iter<'a, T>;

    /// An iterator over the keys and values, in position order.
    fn into_iter(self) -> (iter: Iter<'a, T>)
        ensures
            iter.pending() == self@.entries(),
    {
        self.iter()
    }
}

impl<'a, T> IntoIterator for &'a mut SlotMap<T> {
    type Item = (Key, &'a mut T);

    type IntoIter = IterMut<'a, T>;

    /// An iterator over the keys and values, in position order, that
    /// lets the values be written.
    fn into_iter(self) -> (iter: IterMut<'a, T>)
        ensures
            iter.front() == 0,
            iter.slots() == old(self)@.slots,
            final(self)@ == (Arena { slots: final(iter.lease())@, free: old(self)@.free }),
    {
        self.iter_mut()
    }
}

impl<T> vstd::std_specs::core::IndexSpecImpl<Key> for SlotMap<T> {
    /// Indexing is for keys that reach a value.
    open spec fn index_req(&self, key: &Key) -> bool {
        self@.contains_key(*key)
    }
}

impl<T> Index<Key> for SlotMap<T> {
    type Output = T;

    /// The value that `key` reaches.
    fn index(&self, key: Key) -> (value: &T)
        ensures
            self@.get(key) == Some(*value),
    {
        self.get(key).unwrap()
    }
}

impl<T> IndexMut<Key> for SlotMap<T> {
    /// The value that `key` reaches, for writing.
    fn index_mut(&mut self, key: Key) -> (value: &mut T)
        requires
            old(self).wf(),
            old(self)@.contains_key(key),
        ensures
            final(self).wf(),
            old(self)@.get(key) == Some(*value),
            final(self)@ == old(self)@.set(key, *final(value)),
    {
        self.get_mut(key).unwrap()
    }
}

impl<T: Clone> Clone for SlotMap<T> {
    /// A map with the same positions, generations and free stack, whose
    /// values are clones of this map's values.
    fn clone(&self) -> (copy: SlotMap<T>)
        ensures
            copy@.free == self@.free,
            same_shape(self@.slots, copy@.slots),
            forall|key: Key| #[trigger]
                self@.contains_key(key) ==> copy@.contains_key(key) && cloned(
                    self@.get(key)->0,
                    copy@.get(key)->0,
                ),
            self.wf() ==> copy.wf(),
    {
        let mut slots: Vec<Entry<T>> = Vec::new();
        let mut position: usize = 0;
        while position < self.slots.len()
            invariant
                position <= self.slots@.len(),
                slots@.len() == position,
                forall|p: int|
                    0 <= p < position ==> (#[trigger] slots@[p]).generation()
                        == self.slots@[p].generation() && match self.slots@[p] {
                        Entry::Occupied { value, .. } => slots@[p] is Occupied && cloned(
                            value,
                            slots@[p]->value,
                        ),
                        Entry::Vacant { .. } => slots@[p] is Vacant,
                    },
            decreases self.slots@.len() - position,
        {
            slots.push(self.slots[position].clone());
            position = position + 1;
        }
        let free = self.free.clone();
        let copy = SlotMap { slots, free };
        proof {
            assert(copy@.free =~= self@.free);
            assert(same_shape(self@.slots, copy@.slots));
            if self.wf() {
                self@.lemma_same_shape(copy@);
            }
        }
        copy
    }
}

impl<T> Default for SlotMap<T> {
    /// An empty map.
    fn default() -> (map: SlotMap<T>)
        ensures
            map.wf(),
            map@ == Arena::<T>::empty(),
    {
        SlotMap::new()
    }
}

} // verus!
