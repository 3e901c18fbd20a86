//! What holds of every slot map, proved of the abstract state.

use crate::model::alike;
use crate::model::pair_at;
use crate::model::pairs;
use crate::model::same_shape;
use crate::model::Arena;
use crate::model::Entry;
use crate::model::Step;
use crate::Key;
use vstd::prelude::*;
use vstd::relations::injective_on;
use vstd::set_lib::lemma_int_range;
use vstd::set_lib::lemma_len_subset;
use vstd::set_lib::lemma_map_size;
use vstd::set_lib::lemma_set_disjoint_lens;
use vstd::set_lib::set_int_range;

verus! {

impl<T> Arena<T> {
    /// Inserting keeps the free stack in step with the vacant positions.
    pub proof fn lemma_insert_keeps_wf(self, value: T)
        requires
            self.wf(),
            self.free.len() > 0 || self.slots.len() < usize::MAX,
        ensures
            self.insert(value).wf(),
    {
        let after = self.insert(value);
        if self.free.len() > 0 {
            let top = self.free.last();
            assert(self.vacant_at(self.free[self.free.len() - 1] as int));
            assert forall|p: usize| after.vacant_at(p as int) implies after.free.contains(p) by {
                assert(self.vacant_at(p as int));
                assert(self.free.contains(p));
                let i = choose|i: int| 0 <= i < self.free.len() && self.free[i] == p;
                assert(i != self.free.len() - 1);
                assert(after.free[i] == p);
            }
            assert forall|i: int| 0 <= i < after.free.len() implies after.vacant_at(
                #[trigger] after.free[i] as int,
            ) by {
                assert(self.vacant_at(self.free[i] as int));
                assert(self.free[i] != top);
            }
        } else {
            assert forall|p: usize| after.vacant_at(p as int) implies after.free.contains(p) by {
                assert(self.vacant_at(p as int));
            }
        }
    }

    /// Removing keeps the free stack in step with the vacant positions.
    pub proof fn lemma_remove_keeps_wf(self, key: Key)
        requires
            self.wf(),
        ensures
            self.remove(key).wf(),
    {
        let after = self.remove(key);
        if self.contains_key(key) {
            assert(!self.free.contains(key.index)) by {
                if self.free.contains(key.index) {
                    let i = choose|i: int| 0 <= i < self.free.len() && self.free[i] == key.index;
                    assert(self.vacant_at(self.free[i] as int));
                }
            }
            assert forall|p: usize| after.vacant_at(p as int) implies after.free.contains(p) by {
                if p == key.index {
                    assert(after.free[self.free.len() as int] == p);
                } else {
                    assert(self.vacant_at(p as int));
                    let i = choose|i: int| 0 <= i < self.free.len() && self.free[i] == p;
                    assert(after.free[i] == p);
                }
            }
            assert forall|i: int| 0 <= i < after.free.len() implies after.vacant_at(
                #[trigger] after.free[i] as int,
            ) by {
                if i < self.free.len() {
                    assert(self.vacant_at(self.free[i] as int));
                }
            }
        }
    }

    /// Writing a value in place keeps the state well formed.
    pub proof fn lemma_set_keeps_wf(self, key: Key, value: T)
        requires
            self.wf(),
        ensures
            self.set(key, value).wf(),
    {
        let after = self.set(key, value);
        if self.contains_key(key) {
            assert forall|p: usize| after.vacant_at(p as int) implies after.free.contains(p) by {
                assert(self.vacant_at(p as int));
            }
            assert forall|i: int| 0 <= i < after.free.len() implies after.vacant_at(
                #[trigger] after.free[i] as int,
            ) by {
                assert(self.vacant_at(self.free[i] as int));
            }
        }
    }

    /// The length is the number of keys that reach a value: the positions
    /// that are not on the free stack are the occupied ones, and each
    /// occupied position has exactly one live key.
    pub proof fn lemma_len_counts_live_keys(self)
        requires
            self.wf(),
        ensures
            self.free.len() <= self.slots.len(),
            self.as_map().dom().finite(),
            self.as_map().dom().len() == self.len(),
            self.occupied().finite(),
            self.occupied().len() == self.len(),
    {
        let n = self.slots.len() as int;
        let all = set_int_range(0, n);
        let vacant = Set::new(|p: int| self.vacant_at(p));
        let occupied = self.occupied();
        lemma_int_range(0, n);
        assert(vacant.subset_of(all));
        assert(occupied.subset_of(all));
        lemma_len_subset(vacant, all);
        lemma_len_subset(occupied, all);
        assert(vacant.disjoint(occupied));
        assert(vacant + occupied =~= all);
        lemma_set_disjoint_lens(vacant, occupied);

        let listed = self.free.to_set();
        let position = |p: usize| p as int;
        self.free.unique_seq_to_set();
        assert(listed.map(position) =~= vacant) by {
            assert forall|p: int| vacant.contains(p) implies listed.map(position).contains(p) by {
                assert(self.free.contains(p as usize));
                assert(listed.contains(p as usize));
                assert(position(p as usize) == p);
            }
            assert forall|p: int| listed.map(position).contains(p) implies vacant.contains(p) by {
                let q = choose|q: usize| listed.contains(q) && position(q) == p;
                let i = choose|i: int| 0 <= i < self.free.len() && self.free[i] == q;
                assert(self.vacant_at(self.free[i] as int));
            }
        }
        assert(injective_on(position, listed));
        lemma_map_size(listed, vacant, position);

        let live = self.as_map().dom();
        let key_at = |p: int| Key { index: p as usize, generation: self.slots[p].generation() };
        assert(occupied.map(key_at) =~= live) by {
            assert forall|key: Key| live.contains(key) implies occupied.map(key_at).contains(
                key,
            ) by {
                assert(occupied.contains(key.index as int));
                assert(key_at(key.index as int) == key);
            }
            assert forall|key: Key| occupied.map(key_at).contains(key) implies live.contains(
                key,
            ) by {
                let p = choose|p: int| occupied.contains(p) && key_at(p) == key;
                assert(self.contains_key(key));
            }
        }
        assert(injective_on(key_at, occupied));
        occupied.lemma_map_finite(key_at);
        lemma_map_size(occupied, live, key_at);
    }

    /// Round trip: the key that an insertion returns reaches the inserted
    /// value. The key was not live before, and every other key reaches what it
    /// reached before.
    pub proof fn lemma_insert_get(self, value: T)
        requires
            self.wf(),
        ensures
            !self.contains_key(self.next_key()),
            self.insert(value).get(self.next_key()) == Some(value),
            forall|other: Key|
                other != self.next_key() ==> self.insert(value).get(other) == self.get(other),
            self.insert(value).as_map() == self.as_map().insert(self.next_key(), value),
    {
        let key = self.next_key();
        let after = self.insert(value);
        if self.free.len() > 0 {
            assert(self.vacant_at(self.free[self.free.len() - 1] as int));
        }
        assert forall|other: Key| other != key implies after.get(other) == self.get(other) by {
            if other.index == key.index && self.free.len() > 0 {
                assert(self.get(other) is None);
            }
        }
        assert(after.as_map() =~= self.as_map().insert(key, value));
    }

    /// Removal by a live key takes exactly that key out; removal by any other
    /// key changes nothing.
    pub proof fn lemma_remove_map(self, key: Key)
        ensures
            self.remove(key).as_map() == self.as_map().remove(key),
            forall|other: Key| other != key ==> self.remove(key).get(other) == self.get(other),
    {
        let after = self.remove(key);
        assert forall|other: Key| other != key implies after.get(other) == self.get(other) by {
            if self.contains_key(key) && other.index == key.index {
                assert(self.get(other) is None);
            }
        }
        assert(after.as_map() =~= self.as_map().remove(key));
    }

    /// Idempotent removal: once a key has been used to remove, it reaches
    /// nothing, and removing by it again changes nothing.
    pub proof fn lemma_remove_twice(self, key: Key)
        ensures
            self.remove(key).get(key) is None,
            self.remove(key).remove(key) == self.remove(key),
    {
    }

    /// A key that reached a value is retired by its removal.
    pub proof fn lemma_remove_retires(self, key: Key)
        requires
            self.contains_key(key),
            key.generation.0 < u64::MAX,
        ensures
            self.remove(key).retired(key),
    {
    }

    /// A retired key reaches nothing.
    pub proof fn lemma_retired_is_dead(self, key: Key)
        requires
            self.retired(key),
        ensures
            self.get(key) is None,
            self.remove(key) == self,
    {
    }

    /// No insertion hands out a retired key again: a key for a retired key's
    /// position carries a later generation.
    pub proof fn lemma_retired_never_reissued(self, key: Key)
        requires
            self.wf(),
            self.retired(key),
        ensures
            self.next_key() != key,
            self.next_key().index == key.index ==> self.next_key().generation.0
                > key.generation.0,
    {
        if self.free.len() > 0 {
            assert(self.vacant_at(self.free[self.free.len() - 1] as int));
        }
    }

    /// A retired key stays retired through every later insertion, removal
    /// and write: no position ever goes back to an earlier generation.
    pub proof fn lemma_retired_forever(self, key: Key, value: T, other: Key)
        requires
            self.wf(),
            self.retired(key),
            self.contains_key(other) ==> other.generation.0 < u64::MAX,
        ensures
            self.insert(value).retired(key),
            self.remove(other).retired(key),
            self.set(other, value).retired(key),
    {
        if self.free.len() > 0 {
            assert(self.vacant_at(self.free[self.free.len() - 1] as int));
        }
    }

    /// Use-after-free immunity: the insertion that follows a removal reuses
    /// the removed key's position under the next generation, so the new key
    /// differs from the removed one, which still reaches nothing.
    pub proof fn lemma_reuse_after_remove(self, key: Key, value: T)
        requires
            self.wf(),
            self.contains_key(key),
            key.generation.0 < u64::MAX,
        ensures
            self.remove(key).next_key().index == key.index,
            self.remove(key).next_key().generation == key.generation.successor(),
            self.remove(key).next_key().generation != key.generation,
            self.remove(key).insert(value).get(key) is None,
            self.remove(key).insert(value).get(self.remove(key).next_key()) == Some(value),
    {
        let removed = self.remove(key);
        assert(removed.free.last() == key.index);
    }

    /// Every step that stays within the machine's limits keeps the state
    /// well formed.
    pub proof fn lemma_step_keeps_wf(self, step: Step<T>)
        requires
            self.wf(),
            self.admits(step),
        ensures
            self.step(step).wf(),
    {
        match step {
            Step::Insert(value) => self.lemma_insert_keeps_wf(value),
            Step::Remove(key) => self.lemma_remove_keeps_wf(key),
            Step::Write(key, value) => self.lemma_set_keeps_wf(key, value),
        }
    }

    /// Whatever sequence of insertions, removals and writes a map goes
    /// through, it stays well formed.
    pub proof fn lemma_run_keeps_wf(self, steps: Seq<Step<T>>)
        requires
            self.wf(),
            self.admits_all(steps),
        ensures
            self.run(steps).wf(),
        decreases steps.len(),
    {
        if steps.len() > 0 {
            self.lemma_run_keeps_wf(steps.drop_last());
            self.run(steps.drop_last()).lemma_step_keeps_wf(steps.last());
        }
    }

    /// Every state that a new map can come to is well formed, and its length
    /// is the number of keys that reach a value in it.
    pub proof fn lemma_reachable(steps: Seq<Step<T>>)
        requires
            Arena::<T>::empty().admits_all(steps),
        ensures
            Arena::<T>::empty().run(steps).wf(),
            Arena::<T>::empty().run(steps).as_map().dom().finite(),
            Arena::<T>::empty().run(steps).as_map().dom().len() == Arena::<T>::empty().run(
                steps,
            ).len(),
    {
        Arena::<T>::empty().lemma_run_keeps_wf(steps);
        Arena::<T>::empty().run(steps).lemma_len_counts_live_keys();
    }

    /// A retired key stays retired, and reaches nothing, whatever sequence of
    /// insertions, removals and writes follows.
    pub proof fn lemma_retired_through_run(self, key: Key, steps: Seq<Step<T>>)
        requires
            self.wf(),
            self.retired(key),
            self.admits_all(steps),
        ensures
            self.run(steps).retired(key),
            self.run(steps).get(key) is None,
            self.run(steps).remove(key) == self.run(steps),
        decreases steps.len(),
    {
        if steps.len() > 0 {
            let before = self.run(steps.drop_last());
            self.lemma_retired_through_run(key, steps.drop_last());
            self.lemma_run_keeps_wf(steps.drop_last());
            match steps.last() {
                Step::Insert(value) => before.lemma_retired_forever(key, value, key),
                Step::Remove(other) => {
                    if before.contains_key(other) {
                        let any = before.get(other)->0;
                        before.lemma_retired_forever(key, any, other);
                    }
                },
                Step::Write(other, value) => {
                    assert(before.set(other, value).retired(key));
                },
            }
        }
    }

    /// Idempotent removal, for good: once a live key has been used to remove,
    /// it reaches nothing in any later state, and removing by it again never
    /// changes anything.
    pub proof fn lemma_removed_key_stays_dead(self, key: Key, steps: Seq<Step<T>>)
        requires
            self.wf(),
            self.contains_key(key),
            key.generation.0 < u64::MAX,
            self.remove(key).admits_all(steps),
        ensures
            self.remove(key).run(steps).get(key) is None,
            self.remove(key).run(steps).remove(key) == self.remove(key).run(steps),
    {
        self.lemma_remove_keeps_wf(key);
        self.lemma_remove_retires(key);
        self.remove(key).lemma_retired_through_run(key, steps);
    }

    /// A state with the same free stack and with slots of the same shape is
    /// well formed too, and has the same live keys.
    pub proof fn lemma_same_shape(self, other: Arena<T>)
        requires
            self.wf(),
            same_shape(self.slots, other.slots),
            other.free == self.free,
        ensures
            other.wf(),
            other.len() == self.len(),
            forall|key: Key| other.contains_key(key) == self.contains_key(key),
    {
        assert forall|p: usize| other.vacant_at(p as int) implies other.free.contains(p) by {
            assert(alike(self.slots[p as int], other.slots[p as int]));
            assert(self.vacant_at(p as int));
        }
        assert forall|i: int| 0 <= i < other.free.len() implies other.vacant_at(
            #[trigger] other.free[i] as int,
        ) by {
            let p = self.free[i] as int;
            assert(self.vacant_at(p));
            assert(alike(self.slots[p], other.slots[p]));
        }
        assert forall|key: Key| other.contains_key(key) == self.contains_key(key) by {
            if key.index < self.slots.len() {
                assert(alike(self.slots[key.index as int], other.slots[key.index as int]));
            }
        }
    }

    /// Walking the positions in order yields exactly the live pairs, each
    /// once, by rising position.
    pub proof fn lemma_entries_are_live(self)
        requires
            self.wf(),
        ensures
            self.entries().len() == self.len(),
            forall|key: Key, value: T|
                self.entries().contains((key, value)) <==> self.get(key) == Some(value),
            forall|i: int, j: int|
                0 <= i < j < self.entries().len() ==> self.entries()[i].0.index
                    < self.entries()[j].0.index,
    {
        let entries = self.entries();
        assert forall|key: Key, value: T|
            entries.contains((key, value)) <==> self.get(key) == Some(value) by {
            lemma_pairs_contains(self.slots, 0, key, value);
        }
        lemma_pairs_ordered(self.slots, 0);
        self.lemma_len_counts_live_keys();
        let keys = entries.map_values(|pair: (Key, T)| pair.0);
        assert(keys.no_duplicates()) by {
            assert forall|i: int, j: int| 0 <= i < keys.len() && 0 <= j < keys.len() && i
                != j implies keys[i] != keys[j] by {
                if i < j {
                    assert(entries[i].0.index < entries[j].0.index);
                } else {
                    assert(entries[j].0.index < entries[i].0.index);
                }
            }
        }
        keys.unique_seq_to_set();
        assert(keys.to_set() =~= self.as_map().dom()) by {
            let live = self.as_map().dom();
            assert forall|key: Key| keys.to_set().contains(key) implies live.contains(key) by {
                let i = choose|i: int| 0 <= i < keys.len() && keys[i] == key;
                assert(entries.contains(entries[i]));
                assert(self.get(entries[i].0) == Some(entries[i].1));
            }
            assert forall|key: Key| live.contains(key) implies keys.to_set().contains(key) by {
                let value = self.get(key)->0;
                assert(entries.contains((key, value)));
                let i = choose|i: int| 0 <= i < entries.len() && entries[i] == (key, value);
                assert(keys[i] == key);
            }
        }
    }
}

/// A run of slots can as well be walked from its end.
pub proof fn lemma_pairs_from_back<T>(slots: Seq<Entry<T>>, base: int)
    requires
        slots.len() > 0,
    ensures
        pairs(slots, base) == pairs(slots.drop_last(), base) + pair_at(
            slots.last(),
            base + slots.len() - 1,
        ),
    decreases slots.len(),
{
    if slots.len() == 1 {
        assert(pairs(slots.drop_first(), base + 1) =~= Seq::<(Key, T)>::empty());
        assert(pairs(slots.drop_last(), base) =~= Seq::<(Key, T)>::empty());
        assert(pairs(slots, base) =~= pair_at(slots.last(), base));
    } else {
        let tail = slots.drop_first();
        lemma_pairs_from_back(tail, base + 1);
        assert(tail.drop_last() =~= slots.drop_last().drop_first());
        assert(pairs(slots.drop_last(), base) == pair_at(slots[0], base) + pairs(
            tail.drop_last(),
            base + 1,
        ));
        assert(pairs(slots, base) =~= pairs(slots.drop_last(), base) + pair_at(
            slots.last(),
            base + slots.len() - 1,
        ));
    }
}

/// Walking a run of slots yields exactly its occupied slots: a pair comes out
/// if and only if the slot at the key's position is occupied with the key's
/// generation and the value.
pub proof fn lemma_pairs_contains<T>(slots: Seq<Entry<T>>, base: int, key: Key, value: T)
    requires
        0 <= base,
        base + slots.len() <= usize::MAX + 1,
    ensures
        pairs(slots, base).contains((key, value)) <==> (base <= key.index < base + slots.len()
            && slots[key.index - base] == Entry::Occupied {
            generation: key.generation,
            value,
        }),
    decreases slots.len(),
{
    let target = (key, value);
    if slots.len() > 0 {
        let head = pair_at(slots[0], base);
        let rest = pairs(slots.drop_first(), base + 1);
        lemma_pairs_contains(slots.drop_first(), base + 1, key, value);
        if pairs(slots, base).contains(target) {
            let all = pairs(slots, base);
            let i = choose|i: int| 0 <= i < all.len() && all[i] == target;
            if i < head.len() {
                assert(head[i] == target);
            } else {
                assert(rest[i - head.len()] == target);
            }
        }
        if base <= key.index < base + slots.len() && slots[key.index - base] == (Entry::Occupied {
            generation: key.generation,
            value,
        }) {
            if key.index == base {
                assert(head[0] == target);
                assert(pairs(slots, base)[0] == target);
            } else {
                assert(slots.drop_first()[key.index - (base + 1)] == slots[key.index - base]);
                let i = choose|i: int| 0 <= i < rest.len() && rest[i] == target;
                assert(pairs(slots, base)[head.len() + i] == target);
            }
        }
    }
}

/// Walking a run of slots yields keys at rising positions within the run.
pub proof fn lemma_pairs_ordered<T>(slots: Seq<Entry<T>>, base: int)
    requires
        0 <= base,
        base + slots.len() <= usize::MAX + 1,
    ensures
        forall|i: int|
            0 <= i < pairs(slots, base).len() ==> base <= (#[trigger] pairs(slots, base)[i]).0.index
                < base + slots.len(),
        forall|i: int, j: int|
            0 <= i < j < pairs(slots, base).len() ==> pairs(slots, base)[i].0.index < pairs(
                slots,
                base,
            )[j].0.index,
    decreases slots.len(),
{
    if slots.len() > 0 {
        let head = pair_at(slots[0], base);
        let rest = pairs(slots.drop_first(), base + 1);
        let all = pairs(slots, base);
        lemma_pairs_ordered(slots.drop_first(), base + 1);
        assert forall|i: int| 0 <= i < all.len() implies base <= (#[trigger] all[i]).0.index < base
            + slots.len() by {
            if i >= head.len() {
                assert(all[i] == rest[i - head.len()]);
            }
        }
        assert forall|i: int, j: int| 0 <= i < j < all.len() implies all[i].0.index
            < all[j].0.index by {
            assert(all[j] == rest[j - head.len()]);
            if i >= head.len() {
                assert(all[i] == rest[i - head.len()]);
            }
        }
    }
}

} // verus!
