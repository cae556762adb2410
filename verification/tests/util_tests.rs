use archive_router::util::Atom;
use std::sync::Arc;

#[test]
fn atom_get_returns_what_was_set() {
    let mut a = Atom::new(Arc::new(5u32));
    assert_eq!(*a.get(), 5);
    let before = a.get();
    a.set(Arc::new(7));
    assert_eq!(*a.get(), 7);
    // an earlier read keeps its value
    assert_eq!(*before, 5);
}

#[test]
fn atom_update_replaces_only_on_some() {
    let mut a = Atom::new(Arc::new(vec![1u32, 2]));
    a.update(|v| if v.len() < 3 { Some(Arc::new(vec![0u32; 3])) } else { None });
    assert_eq!(*a.get(), vec![0, 0, 0]);
    a.update(|v| if v.len() < 3 { Some(Arc::new(vec![9u32])) } else { None });
    assert_eq!(*a.get(), vec![0, 0, 0]);
}

#[test]
fn atom_clone_holds_the_same_value_independently() {
    let mut a = Atom::new(Arc::new(String::from("x")));
    let b = a.clone();
    a.set(Arc::new(String::from("y")));
    assert_eq!(*b.get(), "x");
    assert_eq!(*a.get(), "y");
}
