use rsspec::fixtures::{FixtureScope, FixtureStore, StoreError};

fn read(s: &FixtureStore<u32>, k: u64) -> Option<u32> {
    if s.has_setup_value(k) {
        Some(*s.with_setup_value(k))
    } else {
        None
    }
}

#[test]
fn inner_scope_shadows_and_popping_restores_the_outer_value() {
    let mut s: FixtureStore<u32> = FixtureStore::new();
    s.push_scope_setup_layer();
    assert_eq!(s.store_scope_setup_value(1, 10), Ok(()));
    s.push_scope_setup_layer();
    assert_eq!(s.store_scope_setup_value(1, 20), Ok(()));
    assert_eq!(read(&s, 1), Some(20));
    s.pop_scope_setup_layer();
    assert_eq!(read(&s, 1), Some(10));
    s.pop_scope_setup_layer();
    assert_eq!(read(&s, 1), None);
    assert_eq!(s.depth(), 0);
}

#[test]
fn per_test_values_shadow_scope_values_and_are_cleared() {
    let mut s: FixtureStore<u32> = FixtureStore::new();
    s.push_scope_setup_layer();
    assert_eq!(s.store_scope_setup_value(1, 10), Ok(()));
    s.store_setup_value(1, 99);
    assert_eq!(read(&s, 1), Some(99));
    s.store_setup_value(1, 100);
    assert_eq!(read(&s, 1), Some(100), "last stored wins");
    s.clear_setup_values();
    assert_eq!(read(&s, 1), Some(10));
}

#[test]
fn scope_values_need_a_scope_and_refuse_a_second_value_of_one_key() {
    let mut s: FixtureStore<u32> = FixtureStore::new();
    assert_eq!(s.store_scope_setup_value(1, 10), Err(StoreError::NoScope));
    s.push_scope_setup_layer();
    assert_eq!(s.store_scope_setup_value(1, 10), Ok(()));
    assert_eq!(s.store_scope_setup_value(1, 11), Err(StoreError::Collision));
    assert_eq!(s.store_scope_setup_value(2, 11), Ok(()));
    assert_eq!(read(&s, 1), Some(10));
    assert_eq!(read(&s, 2), Some(11));
}

#[test]
fn store_before_value_picks_the_store_by_scope() {
    let mut s: FixtureStore<u32> = FixtureStore::new();
    assert_eq!(s.store_before_value(FixtureScope::PerTest, 3, 1), Ok(()));
    assert_eq!(s.store_before_value(FixtureScope::PerScope, 3, 2), Err(StoreError::NoScope));
    s.push_scope_setup_layer();
    assert_eq!(s.store_before_value(FixtureScope::PerScope, 3, 2), Ok(()));
    assert_eq!(read(&s, 3), Some(1));
    s.clear_setup_values();
    assert_eq!(read(&s, 3), Some(2));
}

#[test]
fn popping_with_no_scope_changes_nothing() {
    let mut s: FixtureStore<u32> = FixtureStore::new();
    s.pop_scope_setup_layer();
    assert_eq!(s.depth(), 0);
}
