use slotmap::SlotMap;

#[test]
fn test_insert_get_remove() {
    let mut slotmap = SlotMap::new();
    let a = slotmap.insert("a");
    let b = slotmap.insert("b");
    let c = slotmap.insert("c");
    assert_eq!(*slotmap.get(a).unwrap(), "a");
    assert_eq!(*slotmap.get(b).unwrap(), "b");
    assert_eq!(*slotmap.get(c).unwrap(), "c");
    assert_eq!(*slotmap.get_mut(a).unwrap(), "a");
    assert_eq!(*slotmap.get_mut(b).unwrap(), "b");
    assert_eq!(*slotmap.get_mut(c).unwrap(), "c");
}

#[test]
fn test_remove() {
    let mut slotmap = SlotMap::new();
    let a = slotmap.insert("a");
    let b = slotmap.insert("b");
    let c = slotmap.insert("c");
    assert_eq!(slotmap.remove(a).unwrap(), "a");
    assert_eq!(slotmap.remove(b).unwrap(), "b");
    assert_eq!(slotmap.remove(c).unwrap(), "c");
    assert_eq!(slotmap.get(a), None);
    assert_eq!(slotmap.get(b), None);
    assert_eq!(slotmap.get(c), None);
}

#[test]
fn test_len() {
    let mut slotmap = SlotMap::new();
    assert!(slotmap.is_empty());
    let a = slotmap.insert(());
    let b = slotmap.insert(());
    let c = slotmap.insert(());
    assert_eq!(slotmap.len(), 3);
    slotmap.remove(a);
    slotmap.remove(b);
    slotmap.remove(c);
    assert!(slotmap.is_empty());
}

#[test]
fn test_uaf() {
    let mut slotmap = SlotMap::new();
    let a = slotmap.insert("a");
    slotmap.remove(a);
    let b = slotmap.insert("b");
    assert_eq!(a.index, b.index);
    assert_eq!(slotmap.get(a), None);
    assert_eq!(*slotmap.get(b).unwrap(), "b");
}

#[test]
fn test_retain() {
    let mut slotmap = SlotMap::new();

    for x in 0..10 {
        let _ = slotmap.insert(x);
    }

    slotmap.retain(|(_, _)| true);
    assert_eq!(slotmap.len(), 10);

    slotmap.retain(|(_, val)| *val >= 5);
    assert_eq!(slotmap.len(), 5);

    slotmap.retain(|(_, _)| false);
    assert!(slotmap.is_empty());
}

#[test]
fn test_iter() {
    let mut slotmap = SlotMap::new();
    let mut keys = Vec::new();
    for x in 0..10 {
        keys.push(slotmap.insert(x));
    }
    let mut it = slotmap.iter();
    let a = it.by_ref().take(5).collect::<Vec<_>>();
    let b = it.by_ref().rev().collect::<Vec<_>>();
    assert!(matches!(
        a.as_slice(),
        [(_, 0), (_, 1), (_, 2), (_, 3), (_, 4)]
    ));
    assert!(matches!(
        b.as_slice(),
        [(_, 9), (_, 8), (_, 7), (_, 6), (_, 5)]
    ));
}

#[test]
fn test_iter_mut() {
    let mut slotmap = SlotMap::new();
    let mut keys = Vec::new();
    for x in 0..10 {
        keys.push(slotmap.insert(x));
    }
    for (_, val) in &mut slotmap {
        *val *= 2;
    }
    let mut it = slotmap.iter();
    let a = it.by_ref().take(5).collect::<Vec<_>>();
    let b = it.by_ref().rev().collect::<Vec<_>>();
    assert!(matches!(
        a.as_slice(),
        [(_, 0), (_, 2), (_, 4), (_, 6), (_, 8)]
    ));
    assert!(matches!(
        b.as_slice(),
        [(_, 18), (_, 16), (_, 14), (_, 12), (_, 10)]
    ));
}

#[test]
fn test_into_iter() {
    let mut slotmap = SlotMap::new();
    let mut keys = Vec::new();
    for x in 0..10 {
        keys.push(slotmap.insert(x));
    }
    let mut it = slotmap.into_iter();
    let a = it.by_ref().take(5).collect::<Vec<_>>();
    let b = it.by_ref().rev().collect::<Vec<_>>();
    assert!(matches!(
        a.as_slice(),
        [(_, 0), (_, 1), (_, 2), (_, 3), (_, 4)]
    ));
    assert!(matches!(
        b.as_slice(),
        [(_, 9), (_, 8), (_, 7), (_, 6), (_, 5)]
    ));
}

#[test]
fn test_values() {
    let mut slotmap = SlotMap::new();
    for x in 0..10 {
        let _ = slotmap.insert(x);
    }
    let mut it = slotmap.values();
    let a = it.by_ref().take(5).collect::<Vec<_>>();
    let b = it.by_ref().rev().collect::<Vec<_>>();
    assert!(matches!(a.as_slice(), [0, 1, 2, 3, 4]));
    assert!(matches!(b.as_slice(), [9, 8, 7, 6, 5]));
}

#[test]
fn test_values_mut() {
    let mut slotmap = SlotMap::new();
    for x in 0..10 {
        let _ = slotmap.insert(x);
    }
    let mut it = slotmap.values_mut();
    let a = it.by_ref().take(5).collect::<Vec<_>>();
    let b = it.by_ref().rev().collect::<Vec<_>>();
    assert!(matches!(a.as_slice(), [0, 1, 2, 3, 4]));
    assert!(matches!(b.as_slice(), [9, 8, 7, 6, 5]));
}

#[test]
fn test_into_values() {
    let mut slotmap = SlotMap::new();
    for x in 0..10 {
        let _ = slotmap.insert(x);
    }
    let mut it = slotmap.into_values();
    let a = it.by_ref().take(5).collect::<Vec<_>>();
    let b = it.by_ref().rev().collect::<Vec<_>>();
    assert!(matches!(a.as_slice(), [0, 1, 2, 3, 4]));
    assert!(matches!(b.as_slice(), [9, 8, 7, 6, 5]));
}

#[test]
fn test_keys() {
    let mut slotmap = SlotMap::new();
    let mut keys = Vec::new();
    for x in 0..10 {
        keys.push(slotmap.insert(x));
    }
    let mut it = slotmap.keys();
    let a = it.by_ref().take(5).collect::<Vec<_>>();
    let b = it.by_ref().rev().take(5).collect::<Vec<_>>();
    assert_eq!(keys[0], a[0]);
    assert_eq!(keys[1], a[1]);
    assert_eq!(keys[2], a[2]);
    assert_eq!(keys[3], a[3]);
    assert_eq!(keys[4], a[4]);
    assert_eq!(keys[9], b[0]);
    assert_eq!(keys[8], b[1]);
    assert_eq!(keys[7], b[2]);
    assert_eq!(keys[6], b[3]);
    assert_eq!(keys[5], b[4]);
}

#[test]
fn crate_example_runs() {
    let mut readings = SlotMap::new();
    let morning = readings.insert(17);
    let noon = readings.insert(24);
    assert_eq!(readings.get(noon), Some(&24));
    assert_eq!(readings[morning], 17);
    assert_eq!(readings.remove(morning), Some(17));
    assert_eq!(readings.remove(morning), None);
    let evening = readings.insert(19);
    assert_eq!(evening.index, morning.index);
    assert_eq!(readings.get(morning), None);
    assert_eq!(readings.len(), 2);
}

#[test]
fn scenario_remove_middle_of_three() {
    let mut direct = slotmap::StandardSlotMap::new();
    let ka = direct.insert("a");
    let kb = direct.insert("b");
    let kc = direct.insert("c");
    assert_eq!(direct.remove(kb), Some("b"));
    let walked: Vec<(slotmap::Key, &str)> = direct.iter().map(|(k, v)| (k, *v)).collect();
    assert_eq!(walked, vec![(ka, "a"), (kc, "c")]);

    let mut dense = slotmap::IndirectionSlotMap::new();
    let ka = dense.insert("a");
    let kb = dense.insert("b");
    let kc = dense.insert("c");
    assert_eq!(dense.remove(kb), Some("b"));
    let mut walked: Vec<(slotmap::Key, &str)> = dense.iter().map(|(k, v)| (k, *v)).collect();
    walked.sort_by_key(|(k, _)| k.index);
    assert_eq!(walked, vec![(ka, "a"), (kc, "c")]);

    let mut dense = slotmap::IndirectionSlotMap::new();
    let ka = dense.insert("a");
    let kb = dense.insert("b");
    let kc = dense.insert("c");
    assert_eq!(dense.remove(kc), Some("c"));
    let walked: Vec<(slotmap::Key, &str)> = dense.iter().map(|(k, v)| (k, *v)).collect();
    assert_eq!(walked, vec![(ka, "a"), (kb, "b")]);
}

#[test]
fn root_iterator_types_are_the_dense_ones() {
    let mut slotmap = SlotMap::new();
    let a = slotmap.insert(1u8);
    let iter: slotmap::Iter<'_, u8> = slotmap.iter();
    assert_eq!(iter.count(), 1);
    let keys: slotmap::Keys<'_, u8> = slotmap.keys();
    assert_eq!(keys.collect::<Vec<_>>(), vec![a]);
    let values: slotmap::Values<'_, u8> = slotmap.values();
    assert_eq!(values.collect::<Vec<_>>(), vec![&1]);
    let mut values_mut: slotmap::ValuesMut<'_, u8> = slotmap.values_mut();
    *values_mut.next().unwrap() = 2;
    let mut iter_mut: slotmap::IterMut<'_, u8> = slotmap.iter_mut();
    assert_eq!(iter_mut.next().map(|(k, v)| (k, *v)), Some((a, 2)));
    let into_values: slotmap::IntoValues<u8> = slotmap.clone().into_values();
    assert_eq!(into_values.collect::<Vec<_>>(), vec![2]);
    let into_iter: slotmap::IntoIter<u8> = slotmap.into_iter();
    assert_eq!(into_iter.collect::<Vec<_>>(), vec![(a, 2)]);
}
