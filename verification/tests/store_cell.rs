use clink::store::Store;

#[test]
fn store_holds_and_replaces_its_value() {
    let mut store: Store<Option<i64>> = Store::new(None);
    assert_eq!(*store.get(), None);
    store.set(Some(42));
    assert_eq!(*store.get(), Some(42));
}

#[test]
fn store_name_is_fresh_and_stable() {
    let mut store = Store::new(0u64);
    let name = store.get_name();
    assert_eq!(name.len(), 36);
    store.set(7);
    assert_eq!(store.get_name(), name);
    let other = Store::new(0u64);
    assert_ne!(other.get_name(), name);
}
