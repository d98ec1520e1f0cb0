use kademlia::assoc::Assoc;
use kademlia::assoc::Key;
use kademlia::id::Id;

#[test]
fn keys_are_told_apart_by_what_they_hold() {
    assert!(3usize.same(&3));
    assert!(!3usize.same(&4));
    assert!(7u64.same(&7));
    assert!(!7u64.same(&8));
    assert!("a".to_string().same(&"a".to_string()));
    assert!(!"a".to_string().same(&"b".to_string()));
    assert!(Id::new([1; 20]).same(&Id::new([1; 20])));
    assert!(!Id::new([1; 20]).same(&Id::new([2; 20])));
}

#[test]
fn insert_get_remove() {
    let mut a = Assoc::<String, u32>::new();
    assert_eq!(a.len(), 0);
    assert_eq!(a.get(&"x".to_string()), None);
    assert_eq!(a.insert("x".to_string(), 1), None);
    assert_eq!(a.insert("y".to_string(), 2), None);
    assert_eq!(a.insert("x".to_string(), 3), Some(1));
    assert_eq!(a.len(), 2);
    assert_eq!(a.get(&"x".to_string()), Some(&3));
    assert_eq!(a.get(&"y".to_string()), Some(&2));
    assert_eq!(a.position(&"z".to_string()), None);
    let at = a.position(&"y".to_string()).unwrap();
    assert_eq!(a.item_at(at), &2);
    assert_eq!(a.remove(&"y".to_string()), Some(2));
    assert_eq!(a.remove(&"y".to_string()), None);
    assert_eq!(a.len(), 1);
    assert_eq!(a.remove_at(0), ("x".to_string(), 3));
    assert_eq!(a.len(), 0);
}
