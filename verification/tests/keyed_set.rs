use blobsim::keyed_set::KeyedSet;

#[test]
fn test_general_behavior() {
    let mut a = KeyedSet::new();
    let hello = a.insert("Hello!");
    let bye = a.insert("Bye!");

    assert_eq!(a.get(hello), Some(&"Hello!"));
    assert_eq!(a.get_mut(bye), Some(&mut "Bye!"));

    a.remove(hello);
    assert_eq!(a.get(hello), None);
    assert_eq!(a.get(bye), Some(&"Bye!"));
}

#[test]
fn test_keys_never_reused() {
    let mut a = KeyedSet::new();
    let k1 = a.insert(1u32);
    let k2 = a.insert(2u32);
    assert!(k1 != k2);

    // Empty the arena completely, then refill it: the retired keys stay
    // absent forever.
    assert_eq!(a.remove(k1), Some(1));
    assert_eq!(a.remove(k2), Some(2));
    assert_eq!(a.len(), 0);

    let k3 = a.insert(3u32);
    assert!(k3 != k1 && k3 != k2);
    assert_eq!(a.get(k1), None);
    assert_eq!(a.get(k2), None);
    assert_eq!(a.get(k3), Some(&3));
}

#[test]
fn test_remove_idempotent() {
    let mut a = KeyedSet::new();
    let k = a.insert("x");
    assert_eq!(a.remove(k), Some("x"));
    assert_eq!(a.remove(k), None);
    assert_eq!(a.remove(k), None);
}

#[test]
fn test_get_mut_updates_value() {
    let mut a = KeyedSet::new();
    let k = a.insert(10u64);
    if let Some(v) = a.get_mut(k) {
        *v = 42;
    }
    assert_eq!(a.get(k), Some(&42));
    assert_eq!(a.len(), 1);
}

#[test]
fn test_iter_in_key_order() {
    let mut a = KeyedSet::new();
    let k1 = a.insert("a");
    let k2 = a.insert("b");
    let k3 = a.insert("c");
    a.remove(k2);
    let entries = a.iter();
    assert_eq!(entries.len(), 2);
    assert_eq!(entries[0].0, k1);
    assert_eq!(entries[0].1, "a");
    assert_eq!(entries[1].0, k3);
    assert_eq!(entries[1].1, "c");
}
