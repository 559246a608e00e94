use syntax_highlighter::pegvm::slab::Slab;

#[test]
fn insert_returns_sequential_indices() {
    let mut s: Slab<u32> = Slab::new();
    assert_eq!(s.insert(10), 0);
    assert_eq!(s.insert(20), 1);
    assert_eq!(s.insert(30), 2);
    assert_eq!(s.len(), 3);
}

#[test]
fn remove_recycles_indices_lifo() {
    let mut s: Slab<u32> = Slab::new();
    let a = s.insert(10);
    let b = s.insert(20);
    let c = s.insert(30);
    s.remove(a);
    s.remove(b);
    s.remove(c);
    assert_eq!(s.insert(99), c);
    assert_eq!(s.insert(99), b);
    assert_eq!(s.insert(99), a);
    assert_eq!(s.len(), 3);
}

#[test]
fn remove_returns_owned_value() {
    let mut s: Slab<String> = Slab::new();
    let a = s.insert("hello".to_string());
    let v = s.remove(a);
    assert_eq!(v, "hello");
    assert_eq!(s.len(), 0);
}

#[test]
fn get_and_get_mut_round_trip() {
    let mut s: Slab<u32> = Slab::new();
    let a = s.insert(10);
    assert_eq!(s.get(a), &10);
    *s.get_mut(a) = 42;
    assert_eq!(s.get(a), &42);
}

#[test]
fn other_slots_keep_values_after_remove() {
    let mut s: Slab<u32> = Slab::new();
    let a = s.insert(10);
    let b = s.insert(20);
    let c = s.insert(30);
    s.remove(b);
    assert_eq!(s.get(a), &10);
    assert_eq!(s.get(c), &30);
    assert_eq!(s.len(), 2);
    let d = s.insert(40);
    assert_eq!(d, b);
    assert_eq!(s.get(a), &10);
    assert_eq!(s.get(c), &30);
    assert_eq!(s.get(d), &40);
}

#[test]
fn remove_then_insert_reuses_the_index() {
    let mut s: Slab<u32> = Slab::new();
    let _ = s.insert(1);
    let b = s.insert(2);
    let v = s.remove(b);
    assert_eq!(v, 2);
    assert_eq!(s.insert(7), b);
    assert_eq!(s.get(b), &7);
}
