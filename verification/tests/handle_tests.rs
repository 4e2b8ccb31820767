use mcts_bot::utils::rc_wrapper::{Arena, HashableRcRefCell, WeakHashableRcRefCell};

#[test]
fn a_new_handle_stands_for_its_value() {
    let mut arena: Arena<u32> = Arena::new();
    assert_eq!(arena.capacity(), 0);
    let a = HashableRcRefCell::new(&mut arena, 7);
    let b = HashableRcRefCell::new(&mut arena, 9);
    assert!(arena.contains(&a));
    assert!(arena.contains(&b));
    assert_eq!(*arena.get(&a), 7);
    assert_eq!(*arena.get(&b), 9);
    assert!(!a.same(&b));
    assert_ne!(a.slot(), b.slot());
    assert_eq!(arena.capacity(), 2);
}

#[test]
fn strong_count_is_one_while_the_value_lives() {
    let mut arena: Arena<u32> = Arena::new();
    let a = HashableRcRefCell::new(&mut arena, 7);
    assert_eq!(a.strong_count(&arena), 1);
    assert_eq!(a.downgrade().strong_count(&arena), 1);
    let other: Arena<u32> = Arena::new();
    assert_eq!(a.strong_count(&other), 0);
    assert_eq!(a.downgrade().strong_count(&other), 0);
}

#[test]
fn downgrade_and_upgrade_lead_back() {
    let mut arena: Arena<String> = Arena::new();
    let a = HashableRcRefCell::new(&mut arena, "a".to_string());
    let w = a.downgrade();
    assert_eq!(w.slot(), a.slot());
    let back = w.upgrade(&arena).expect("alive");
    assert!(back.same(&a));
    assert_eq!(arena.get(&back), "a");
    assert!(w.same(&back.downgrade()));
}

#[test]
fn a_weak_handle_made_alone_stands_for_nothing() {
    let mut arena: Arena<u32> = Arena::new();
    let a = HashableRcRefCell::new(&mut arena, 1);
    let w: WeakHashableRcRefCell<u32> = WeakHashableRcRefCell::new(5);
    assert!(w.upgrade(&arena).is_none());
    assert_eq!(w.strong_count(&arena), 0);
    assert!(!w.same(&a.downgrade()));
}

#[test]
fn upgrade_fails_in_an_arena_without_the_value() {
    let mut arena: Arena<u32> = Arena::new();
    let a = HashableRcRefCell::new(&mut arena, 1);
    let empty: Arena<u32> = Arena::new();
    assert!(a.downgrade().upgrade(&empty).is_none());
    assert!(!empty.contains(&a));
}

#[test]
fn handles_are_copied_freely() {
    let mut arena: Arena<u32> = Arena::new();
    let a = HashableRcRefCell::new(&mut arena, 1);
    let b = a;
    let c = a.clone();
    assert!(a.same(&b));
    assert!(a.same(&c));
    assert_eq!(*arena.get(&c), 1);
}
