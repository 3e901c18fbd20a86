use slotmap::indirection::Slot;
use slotmap::Generation;
use slotmap::IndirectionSlotMap;
use slotmap::Key;

#[test]
fn indirection_iterator() {
    let mut slotmap = IndirectionSlotMap::new();
    let a = slotmap.insert("a");
    let b = slotmap.insert("b");
    let c = slotmap.insert("c");
    let mut iter = slotmap.iter();
    assert_eq!(iter.next().map(|(k, v)| (k, *v)).unwrap(), (a, "a"));
    assert_eq!(iter.next().map(|(k, v)| (k, *v)).unwrap(), (b, "b"));
    assert_eq!(iter.next().map(|(k, v)| (k, *v)).unwrap(), (c, "c"));
    assert_eq!(iter.next(), None);
    let mut iter = slotmap.iter_mut();
    assert_eq!(iter.next().map(|(k, v)| (k, *v)).unwrap(), (a, "a"));
    assert_eq!(iter.next().map(|(k, v)| (k, *v)).unwrap(), (b, "b"));
    assert_eq!(iter.next().map(|(k, v)| (k, *v)).unwrap(), (c, "c"));
    assert_eq!(iter.next(), None);
    let mut iter = slotmap.into_iter();
    assert_eq!(iter.next().unwrap(), (a, "a"));
    assert_eq!(iter.next().unwrap(), (b, "b"));
    assert_eq!(iter.next().unwrap(), (c, "c"));
    assert_eq!(iter.next(), None);
}

#[test]
fn indirection_iterator_skip_vacant() {
    let mut slotmap = IndirectionSlotMap::new();
    let a = slotmap.insert("a");
    let b = slotmap.insert("b");
    let c = slotmap.insert("c");
    slotmap.remove(b);
    let mut iter = slotmap.iter();
    assert_eq!(iter.next().map(|(k, v)| (k, *v)).unwrap(), (a, "a"));
    assert_eq!(iter.next().map(|(k, v)| (k, *v)).unwrap(), (c, "c"));
    assert_eq!(iter.next(), None);
    let mut iter = slotmap.iter_mut();
    assert_eq!(iter.next().map(|(k, v)| (k, *v)).unwrap(), (a, "a"));
    assert_eq!(iter.next().map(|(k, v)| (k, *v)).unwrap(), (c, "c"));
    assert_eq!(iter.next(), None);
    let mut iter = slotmap.into_iter();
    assert_eq!(iter.next().unwrap(), (a, "a"));
    assert_eq!(iter.next().unwrap(), (c, "c"));
    assert_eq!(iter.next(), None);
}

#[test]
fn indirection_double_ended_iterator() {
    let mut slotmap = IndirectionSlotMap::new();
    let a = slotmap.insert("a");
    let b = slotmap.insert("b");
    let c = slotmap.insert("c");
    let mut iter = slotmap.iter();
    assert_eq!(iter.next_back().map(|(k, v)| (k, *v)).unwrap(), (c, "c"));
    assert_eq!(iter.next_back().map(|(k, v)| (k, *v)).unwrap(), (b, "b"));
    assert_eq!(iter.next_back().map(|(k, v)| (k, *v)).unwrap(), (a, "a"));
    assert_eq!(iter.next_back(), None);
    let mut iter = slotmap.iter_mut();
    assert_eq!(iter.next_back().map(|(k, v)| (k, *v)).unwrap(), (c, "c"));
    assert_eq!(iter.next_back().map(|(k, v)| (k, *v)).unwrap(), (b, "b"));
    assert_eq!(iter.next_back().map(|(k, v)| (k, *v)).unwrap(), (a, "a"));
    assert_eq!(iter.next_back(), None);
    let mut iter = slotmap.into_iter();
    assert_eq!(iter.next_back().unwrap(), (c, "c"));
    assert_eq!(iter.next_back().unwrap(), (b, "b"));
    assert_eq!(iter.next_back().unwrap(), (a, "a"));
    assert_eq!(iter.next_back(), None);
}

#[test]
fn indirection_first_key_is_position_zero_generation_zero() {
    let mut slotmap = IndirectionSlotMap::new();
    let a = slotmap.insert(7u8);
    let b = slotmap.insert(8u8);
    assert_eq!(a, Key { index: 0, generation: Generation(0) });
    assert_eq!(b, Key { index: 1, generation: Generation(0) });
}

#[test]
fn indirection_round_trip() {
    let mut slotmap = IndirectionSlotMap::new();
    for x in 0..50u32 {
        let key = slotmap.insert(x * 3);
        assert_eq!(slotmap.get(key), Some(&(x * 3)));
        assert!(slotmap.contains_key(key));
    }
}

#[test]
fn indirection_reuse_is_last_in_first_out() {
    let mut slotmap = IndirectionSlotMap::new();
    let a = slotmap.insert('a');
    let b = slotmap.insert('b');
    let c = slotmap.insert('c');
    assert_eq!(slotmap.remove(a), Some('a'));
    assert_eq!(slotmap.remove(c), Some('c'));
    let d = slotmap.insert('d');
    let e = slotmap.insert('e');
    let f = slotmap.insert('f');
    assert_eq!(d, Key { index: 2, generation: Generation(1) });
    assert_eq!(e, Key { index: 0, generation: Generation(1) });
    assert_eq!(f, Key { index: 3, generation: Generation(0) });
    assert_eq!(slotmap.get(b), Some(&'b'));
    assert_eq!(slotmap.get(d), Some(&'d'));
    assert_eq!(slotmap.get(e), Some(&'e'));
    assert_eq!(slotmap.get(f), Some(&'f'));
    assert_eq!(slotmap.len(), 4);
}

#[test]
fn indirection_removed_key_stays_dead() {
    let mut slotmap = IndirectionSlotMap::new();
    let a = slotmap.insert(1);
    let b = slotmap.insert(2);
    assert_eq!(slotmap.remove(a), Some(1));
    assert_eq!(slotmap.remove(a), None);
    assert_eq!(slotmap.get(a), None);
    for round in 0..20 {
        let k = slotmap.insert(round);
        assert_eq!(k.index, a.index);
        assert_ne!(k.generation, a.generation);
        assert_eq!(slotmap.get(a), None);
        assert!(!slotmap.contains_key(a));
        assert_eq!(slotmap.remove(a), None);
        assert_eq!(slotmap.get(k), Some(&round));
        assert_eq!(slotmap.remove(k), Some(round));
    }
    assert_eq!(slotmap.get(b), Some(&2));
    assert_eq!(slotmap.len(), 1);
}

#[test]
fn indirection_reuse_carries_next_generation() {
    let mut slotmap = IndirectionSlotMap::new();
    let a = slotmap.insert("a");
    slotmap.remove(a);
    let b = slotmap.insert("b");
    assert_eq!(a.index, b.index);
    assert_eq!(b.generation, Generation(a.generation.0 + 1));
    assert_eq!(slotmap.get(a), None);
    assert_eq!(slotmap.get_mut(a), None);
    assert_eq!(*slotmap.get(b).unwrap(), "b");
}

#[test]
fn indirection_removal_moves_last_entry_into_the_gap() {
    let mut slotmap = IndirectionSlotMap::new();
    let a = slotmap.insert("a");
    let b = slotmap.insert("b");
    let c = slotmap.insert("c");
    let d = slotmap.insert("d");
    assert_eq!(slotmap.remove(b), Some("b"));
    let order: Vec<(Key, &str)> = slotmap.iter().map(|(k, v)| (k, *v)).collect();
    assert_eq!(order, vec![(a, "a"), (d, "d"), (c, "c")]);
    assert_eq!(slotmap.remove(c), Some("c"));
    let order: Vec<(Key, &str)> = slotmap.iter().map(|(k, v)| (k, *v)).collect();
    assert_eq!(order, vec![(a, "a"), (d, "d")]);
    assert_eq!(slotmap.get(a), Some(&"a"));
    assert_eq!(slotmap.get(d), Some(&"d"));
}

#[test]
fn indirection_links_survive_churn() {
    let mut slotmap = IndirectionSlotMap::new();
    let mut issued: Vec<(Key, u64)> = Vec::new();
    let mut live: Vec<(Key, u64)> = Vec::new();
    let mut seed: u64 = 0x2545_f491_4f6c_dd1d;
    for round in 0..400u64 {
        seed ^= seed << 13;
        seed ^= seed >> 7;
        seed ^= seed << 17;
        if live.is_empty() || seed % 3 != 0 {
            let key = slotmap.insert(round);
            issued.push((key, round));
            live.push((key, round));
        } else {
            let at = (seed / 3) as usize % live.len();
            let (key, value) = live.swap_remove(at);
            assert_eq!(slotmap.remove(key), Some(value));
            assert_eq!(slotmap.remove(key), None);
        }
        assert_eq!(slotmap.len(), live.len());
        for (key, value) in &live {
            assert_eq!(slotmap.get(*key), Some(value));
        }
        let mut walked: Vec<(Key, u64)> = slotmap.iter().map(|(k, v)| (k, *v)).collect();
        for (key, value) in &walked {
            assert_eq!(slotmap.get(*key), Some(value));
        }
        walked.sort_by_key(|(k, _)| (k.index, k.generation.0));
        let mut expected = live.clone();
        expected.sort_by_key(|(k, _)| (k.index, k.generation.0));
        assert_eq!(walked, expected);
        let reached = issued.iter().filter(|(k, _)| slotmap.get(*k).is_some()).count();
        assert_eq!(reached, live.len());
    }
}

#[test]
fn indirection_out_of_range_key_reaches_nothing() {
    let mut slotmap = IndirectionSlotMap::new();
    let _ = slotmap.insert(1);
    let stranger = Key { index: 17, generation: Generation(0) };
    assert_eq!(slotmap.get(stranger), None);
    assert_eq!(slotmap.get_mut(stranger), None);
    assert!(!slotmap.contains_key(stranger));
    assert_eq!(slotmap.remove(stranger), None);
    assert_eq!(slotmap.len(), 1);
}

#[test]
fn indirection_double_free() {
    let mut slotmap = IndirectionSlotMap::new();
    let k = slotmap.insert(String::from("v"));
    assert_eq!(slotmap.remove(k), Some(String::from("v")));
    assert_eq!(slotmap.remove(k), None);
    assert_eq!(slotmap.len(), 0);
    let again = slotmap.insert(String::from("w"));
    assert_eq!(again, Key { index: 0, generation: Generation(1) });
    assert_eq!(slotmap.len(), 1);
}

#[test]
fn indirection_index_operators() {
    let mut slotmap = IndirectionSlotMap::new();
    let a = slotmap.insert(10);
    let b = slotmap.insert(20);
    assert_eq!(slotmap[a], 10);
    slotmap[b] = 25;
    slotmap[a] += 1;
    assert_eq!(slotmap[a], 11);
    assert_eq!(slotmap.get(b), Some(&25));
}

#[test]
fn indirection_mutable_iteration_writes_through() {
    let mut slotmap = IndirectionSlotMap::new();
    let a = slotmap.insert(1);
    let b = slotmap.insert(2);
    let c = slotmap.insert(3);
    slotmap.remove(a);
    for (key, value) in slotmap.iter_mut() {
        *value += key.index * 100;
    }
    assert_eq!(slotmap.get(a), None);
    assert_eq!(slotmap.get(b), Some(&102));
    assert_eq!(slotmap.get(c), Some(&203));
    for value in slotmap.values_mut().rev() {
        *value *= 2;
    }
    assert_eq!(slotmap.get(b), Some(&204));
    assert_eq!(slotmap.get(c), Some(&406));
    assert_eq!(slotmap.len(), 2);
    let d = slotmap.insert(4);
    assert_eq!(d, Key { index: 0, generation: Generation(1) });
    assert_eq!(slotmap.get(d), Some(&4));
}

#[test]
fn indirection_iterators_meet_in_the_middle() {
    let mut slotmap = IndirectionSlotMap::new();
    let keys: Vec<Key> = (0..4).map(|x| slotmap.insert(x)).collect();
    let mut iter = slotmap.iter();
    assert_eq!(iter.next(), Some((keys[0], &0)));
    assert_eq!(iter.next_back(), Some((keys[3], &3)));
    assert_eq!(iter.next_back(), Some((keys[2], &2)));
    assert_eq!(iter.next(), Some((keys[1], &1)));
    assert_eq!(iter.next(), None);
    assert_eq!(iter.next_back(), None);
    let mut keys_iter = slotmap.keys();
    assert_eq!(keys_iter.next_back(), Some(keys[3]));
    assert_eq!(keys_iter.next(), Some(keys[0]));
    let mut values = slotmap.values();
    assert_eq!(values.next(), Some(&0));
    assert_eq!(values.next_back(), Some(&3));
    let mut iter = slotmap.iter_mut();
    assert_eq!(iter.next_back().map(|(k, v)| (k, *v)), Some((keys[3], 3)));
    assert_eq!(iter.next().map(|(k, v)| (k, *v)), Some((keys[0], 0)));
    let mut taken = slotmap.into_values();
    assert_eq!(taken.next_back(), Some(3));
    assert_eq!(taken.next(), Some(0));
    assert_eq!(taken.next(), Some(1));
    assert_eq!(taken.next(), Some(2));
    assert_eq!(taken.next(), None);
    assert_eq!(taken.next_back(), None);
}

#[test]
fn indirection_retain_keeps_keys_of_survivors() {
    let mut slotmap = IndirectionSlotMap::new();
    let keys: Vec<Key> = (0..10).map(|x| slotmap.insert(x)).collect();
    slotmap.retain(|(key, value)| key.index % 2 == 0 && *value != 4);
    for (x, key) in keys.iter().enumerate() {
        if x % 2 == 0 && x != 4 {
            assert_eq!(slotmap.get(*key), Some(&x));
        } else {
            assert_eq!(slotmap.get(*key), None);
        }
    }
    assert_eq!(slotmap.len(), 4);
    assert_eq!(slotmap.iter().count(), 4);
}

#[test]
fn indirection_default_is_empty() {
    let slotmap: IndirectionSlotMap<u8> = IndirectionSlotMap::default();
    assert!(slotmap.is_empty());
    assert_eq!(slotmap.len(), 0);
    assert_eq!(slotmap.iter().next(), None);
}

#[test]
fn generation_next_adds_one() {
    assert_eq!(Generation(0).next(), Generation(1));
    assert_eq!(Generation(41).next(), Generation(42));
}

#[test]
fn occupied_slot_unwraps_to_its_index() {
    assert_eq!(Slot::Occupied(3).unwrap_occupied(), 3);
    assert_eq!(Slot::Occupied(0).unwrap_occupied(), 0);
}

#[test]
fn both_layouts_issue_the_same_keys() {
    let mut direct = slotmap::StandardSlotMap::new();
    let mut dense = IndirectionSlotMap::new();
    let mut seed: u64 = 88172645463325252;
    let mut live: Vec<Key> = Vec::new();
    for round in 0..300u32 {
        seed ^= seed << 13;
        seed ^= seed >> 7;
        seed ^= seed << 17;
        if live.is_empty() || seed % 2 == 0 {
            let a = direct.insert(round);
            let b = dense.insert(round);
            assert_eq!(a, b);
            live.push(a);
        } else {
            let key = live.swap_remove((seed / 2) as usize % live.len());
            assert_eq!(direct.remove(key), dense.remove(key));
        }
        assert_eq!(direct.len(), dense.len());
        for key in &live {
            assert_eq!(direct.get(*key), dense.get(*key));
        }
    }
}
