//! The abstract state of a slot map: what its contracts speak of.

use crate::Generation;
use crate::Key;
use vstd::prelude::*;

verus! {

/// What one storage position holds.
#[derive(Debug)]
pub enum Entry<T> {
    /// A live value, reachable by the key with this generation.
    Occupied { generation: Generation, value: T },
    /// No value; `generation` is what the next occupant's key will carry.
    Vacant { generation: Generation },
}

impl<T> Entry<T> {
    /// The generation stored at the position, whatever it holds.
    pub open spec fn generation(self) -> Generation {
        match self {
            Entry::Occupied { generation, .. } => generation,
            Entry::Vacant { generation } => generation,
        }
    }
}

impl<T: Clone> Clone for Entry<T> {
    /// A slot of the same kind and generation, with a clone of the value if
    /// there is one.
    fn clone(&self) -> (copy: Entry<T>)
        ensures
            copy.generation() == self.generation(),
            match *self {
                Entry::Occupied { value, .. } => copy is Occupied && cloned(value, copy->value),
                Entry::Vacant { .. } => copy is Vacant,
            },
    {
        match self {
            Entry::Occupied { generation, value } => Entry::Occupied {
                generation: *generation,
                value: value.clone(),
            },
            Entry::Vacant { generation } => Entry::Vacant { generation: *generation },
        }
    }
}

/// The abstract state of a slot map: the storage positions in order, and the
/// stack of positions that are free for reuse (its top is the last element).
#[verifier::ext_equal]
pub struct Arena<T> {
    pub slots: Seq<Entry<T>>,
    pub free: Seq<usize>,
}

impl<T> Arena<T> {
    /// The state of a new map.
    pub open spec fn empty() -> Arena<T> {
        Arena { slots: Seq::empty(), free: Seq::empty() }
    }

    /// Position `p` exists and holds no value.
    pub open spec fn vacant_at(self, p: int) -> bool {
        0 <= p < self.slots.len() && self.slots[p] is Vacant
    }

    /// Position `p` exists and holds a value.
    pub open spec fn occupied_at(self, p: int) -> bool {
        0 <= p < self.slots.len() && self.slots[p] is Occupied
    }

    /// The occupied positions.
    pub open spec fn occupied(self) -> Set<int> {
        Set::new(|p: int| self.occupied_at(p))
    }

    /// The free stack lists exactly the vacant positions, each once.
    pub open spec fn wf(self) -> bool {
        &&& self.slots.len() <= usize::MAX
        &&& self.free.no_duplicates()
        &&& forall|i: int|
            0 <= i < self.free.len() ==> self.vacant_at(#[trigger] self.free[i] as int)
        &&& forall|p: usize| self.vacant_at(p as int) ==> self.free.contains(p)
    }

    /// The value that `key` reaches: its position exists, is occupied, and
    /// stores the key's generation.
    pub open spec fn get(self, key: Key) -> Option<T> {
        if key.index < self.slots.len() {
            match self.slots[key.index as int] {
                Entry::Occupied { generation, value } => if generation == key.generation {
                    Some(value)
                } else {
                    None
                },
                Entry::Vacant { .. } => None,
            }
        } else {
            None
        }
    }

    /// `key` reaches a value.
    pub open spec fn contains_key(self, key: Key) -> bool {
        self.get(key) is Some
    }

    /// The number of values held.
    pub open spec fn len(self) -> nat {
        (self.slots.len() - self.free.len()) as nat
    }

    /// The key that the next insertion returns: the top of the free stack with
    /// the generation stored there, or else a new position with generation 0.
    pub open spec fn next_key(self) -> Key {
        if self.free.len() > 0 {
            let p = self.free.last();
            Key { index: p, generation: self.slots[p as int].generation() }
        } else {
            Key { index: self.slots.len() as usize, generation: Generation(0) }
        }
    }

    /// The state after inserting `value`.
    pub open spec fn insert(self, value: T) -> Arena<T> {
        let key = self.next_key();
        let entry = Entry::Occupied { generation: key.generation, value };
        if self.free.len() > 0 {
            Arena { slots: self.slots.update(key.index as int, entry), free: self.free.drop_last() }
        } else {
            Arena { slots: self.slots.push(entry), free: self.free }
        }
    }

    /// The state after removing by `key`: unchanged unless the key reaches a
    /// value; then its position is vacant with the next generation and lies on
    /// top of the free stack.
    pub open spec fn remove(self, key: Key) -> Arena<T> {
        if self.contains_key(key) {
            Arena {
                slots: self.slots.update(
                    key.index as int,
                    Entry::Vacant { generation: key.generation.successor() },
                ),
                free: self.free.push(key.index),
            }
        } else {
            self
        }
    }

    /// The state after removing by each of `keys` in turn.
    pub open spec fn remove_all(self, keys: Seq<Key>) -> Arena<T>
        decreases keys.len(),
    {
        if keys.len() == 0 {
            self
        } else {
            self.remove_all(keys.drop_last()).remove(keys.last())
        }
    }

    /// The state after replacing the value that `key` reaches.
    pub open spec fn set(self, key: Key, value: T) -> Arena<T> {
        if self.contains_key(key) {
            Arena {
                slots: self.slots.update(
                    key.index as int,
                    Entry::Occupied { generation: key.generation, value },
                ),
                free: self.free,
            }
        } else {
            self
        }
    }

    /// The keys and values of the occupied positions, in position order.
    pub open spec fn entries(self) -> Seq<(Key, T)> {
        pairs(self.slots, 0)
    }

    /// The live keys with their values.
    pub open spec fn as_map(self) -> Map<Key, T> {
        Map::new(|key: Key| self.contains_key(key), |key: Key| self.get(key).unwrap())
    }

    /// `key`'s position has moved on to a later generation, so the key can
    /// never reach a value again.
    pub open spec fn retired(self, key: Key) -> bool {
        key.index < self.slots.len() && self.slots[key.index as int].generation().0
            > key.generation.0
    }

    /// The state after one step.
    pub open spec fn step(self, step: Step<T>) -> Arena<T> {
        match step {
            Step::Insert(value) => self.insert(value),
            Step::Remove(key) => self.remove(key),
            Step::Write(key, value) => self.set(key, value),
        }
    }

    /// The step stays within the machine's limits: an insertion finds a
    /// position that a `usize` can name, and a removal of a live key finds a
    /// generation that has a successor.
    pub open spec fn admits(self, step: Step<T>) -> bool {
        match step {
            Step::Insert(_) => self.free.len() > 0 || self.slots.len() < usize::MAX,
            Step::Remove(key) => self.contains_key(key) ==> key.generation.0 < u64::MAX,
            Step::Write(_, _) => true,
        }
    }

    /// The state after `steps`, taken in order.
    pub open spec fn run(self, steps: Seq<Step<T>>) -> Arena<T>
        decreases steps.len(),
    {
        if steps.len() == 0 {
            self
        } else {
            self.run(steps.drop_last()).step(steps.last())
        }
    }

    /// Each of `steps`, taken in order, stays within the machine's limits.
    pub open spec fn admits_all(self, steps: Seq<Step<T>>) -> bool
        decreases steps.len(),
    {
        steps.len() == 0 || (self.admits_all(steps.drop_last()) && self.run(
            steps.drop_last(),
        ).admits(steps.last()))
    }
}

/// One change to a slot map.
pub enum Step<T> {
    /// Insert the value.
    Insert(T),
    /// Remove by the key.
    Remove(Key),
    /// Write the value where the key reaches.
    Write(Key, T),
}

/// Two slots differ at most in the value they hold: both are vacant or both
/// are occupied, under the same generation.
pub open spec fn alike<T>(a: Entry<T>, b: Entry<T>) -> bool {
    a.generation() == b.generation() && (a is Vacant <==> b is Vacant)
}

/// Two runs of slots differ at most in the values of their occupied slots.
pub open spec fn same_shape<T>(a: Seq<Entry<T>>, b: Seq<Entry<T>>) -> bool {
    &&& a.len() == b.len()
    &&& forall|p: int| 0 <= p < a.len() ==> alike(#[trigger] a[p], b[p])
}

/// What the slot at `position` gives to iteration: its key and value if it
/// is occupied, nothing if it is vacant.
pub open spec fn pair_at<T>(entry: Entry<T>, position: int) -> Seq<(Key, T)> {
    match entry {
        Entry::Occupied { generation, value } => seq![
            (Key { index: position as usize, generation }, value),
        ],
        Entry::Vacant { .. } => Seq::empty(),
    }
}

/// The keys and values of the occupied slots in a run of slots whose first
/// slot lies at position `base`, in position order.
pub open spec fn pairs<T>(slots: Seq<Entry<T>>, base: int) -> Seq<(Key, T)>
    decreases slots.len(),
{
    if slots.len() == 0 {
        Seq::empty()
    } else {
        pair_at(slots[0], base) + pairs(slots.drop_first(), base + 1)
    }
}

/// A pair of a key and a value, with the value by reference: what a
/// borrowing iterator hands out for a pair that it has pending.
pub open spec fn by_ref<'a, T>(pair: (Key, T)) -> (Key, &'a T) {
    (pair.0, &pair.1)
}

/// What is left of `s` when the element at `i` is taken out by moving the last
/// element into its place.
pub open spec fn swap_removed<A>(s: Seq<A>, i: int) -> Seq<A> {
    s.update(i, s.last()).drop_last()
}

} // verus!
