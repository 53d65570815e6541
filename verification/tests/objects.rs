use flat_spatial::objects::is_key;
use flat_spatial::objects::ObjectMap;
use flat_spatial::slots::SlotIndexD;

#[test]
fn object_map_gives_back_what_it_took() {
    let mut m: ObjectMap<&str> = ObjectMap::new();
    assert!(m.is_empty());
    let a = m.insert("a");
    let b = m.insert("b");
    let c = m.insert("c");
    assert!(a != b && b != c && a != c);
    assert!(is_key(a) && is_key(b) && is_key(c));
    assert_eq!(m.len(), 3);
    assert_eq!(m.get(a), Some(&"a"));
    assert_eq!(m.get(b), Some(&"b"));
    assert_eq!(m.get(c), Some(&"c"));
    assert_eq!(m.keys(), vec![a, b, c]);
    assert!(m.contains_key(b));
}

#[test]
fn object_map_remove_fills_the_gap() {
    let mut m: ObjectMap<i32> = ObjectMap::new();
    let a = m.insert(1);
    let b = m.insert(2);
    let c = m.insert(3);
    assert_eq!(m.remove(a), Some(1));
    assert_eq!(m.remove(a), None);
    assert!(!m.contains_key(a));
    assert_eq!(m.get(a), None);
    // the last object took the place of the first
    assert_eq!(m.keys(), vec![c, b]);
    assert_eq!(m.get(b), Some(&2));
    assert_eq!(m.get(c), Some(&3));
    assert_eq!(m.key_at(0), c);
    assert_eq!(m.value_at(0), &3);
    assert_eq!(m.remove(b), Some(2));
    assert_eq!(m.remove(c), Some(3));
    assert_eq!(m.len(), 0);
    // a key that left stays out, and a slot that is used again gives another key
    let d = m.insert(4);
    assert!(d != a && d != b && d != c);
    assert_eq!(m.get(a), None);
    assert_eq!(m.get(d), Some(&4));
}

#[test]
fn object_map_changes_in_place() {
    let mut m: ObjectMap<i32> = ObjectMap::new();
    let a = m.insert(1);
    let b = m.insert(2);
    *m.get_mut(b).unwrap() = 20;
    *m.value_at_mut(0) += 10;
    assert_eq!(m.get(a), Some(&11));
    assert_eq!(m.get(b), Some(&20));
    assert!(m.get_mut(5).is_none());
}

#[test]
fn numbers_that_are_no_keys_name_nothing() {
    let mut m: ObjectMap<i32> = ObjectMap::new();
    let a = m.insert(1);
    // the same slot with an even version
    let forged = a & !(1 << 32);
    assert!(!is_key(forged));
    assert!(!is_key(0));
    assert!(is_key(1 << 32));
    assert_eq!(m.get(forged), None);
    assert!(!m.contains_key(forged));
    assert_eq!(m.remove(forged), None);
    assert_eq!(m.len(), 1);
    assert_eq!(m.get(a), Some(&1));
}

#[test]
fn object_map_on_the_other_slot_map() {
    let mut m: ObjectMap<i32, SlotIndexD> = ObjectMap::new();
    let a = m.insert(1);
    let b = m.insert(2);
    let c = m.insert(3);
    assert!(is_key(a) && is_key(b) && is_key(c));
    assert!(a != b && b != c && a != c);
    assert_eq!(m.get(b), Some(&2));
    *m.get_mut(c).unwrap() = 30;
    assert_eq!(m.remove(a), Some(1));
    assert_eq!(m.remove(a), None);
    assert_eq!(m.keys(), vec![c, b]);
    assert_eq!(m.get(c), Some(&30));
    assert_eq!(m.get(b), Some(&2));
    let d = m.insert(4);
    assert!(d != a);
    assert_eq!(m.get(a), None);
    assert_eq!(m.len(), 3);
}
