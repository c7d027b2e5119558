use nuts::DomainState;

#[test]
fn store_then_try_get_round_trips() {
    let mut ds: DomainState<u64> = DomainState::new();
    assert_eq!(ds.try_get(1), None);
    ds.store(1, 42);
    assert_eq!(ds.try_get(1), Some(&42));
    assert_eq!(ds.try_get(2), None);
}

#[test]
fn second_store_makes_first_unreachable() {
    let mut ds: DomainState<u64> = DomainState::new();
    ds.store(1, 42);
    ds.store(1, 43);
    assert_eq!(ds.try_get(1), Some(&43));
}

#[test]
fn stores_under_distinct_tags_coexist() {
    let mut ds: DomainState<u64> = DomainState::new();
    ds.store(1, 10);
    ds.store(2, 20);
    assert_eq!(ds.try_get(1), Some(&10));
    assert_eq!(ds.try_get(2), Some(&20));
}

#[test]
fn get_returns_stored_value() {
    let mut ds: DomainState<String> = DomainState::new();
    ds.store(5, "shared".to_string());
    assert_eq!(ds.get(5), "shared");
}

#[test]
fn get_mut_edits_in_place() {
    let mut ds: DomainState<u64> = DomainState::new();
    ds.store(1, 5);
    *ds.get_mut(1) += 1;
    assert_eq!(ds.try_get(1), Some(&6));
}

#[test]
fn try_get_mut_edits_in_place_and_reports_absence() {
    let mut ds: DomainState<u64> = DomainState::new();
    assert_eq!(ds.try_get_mut(1), None);
    ds.store(1, 5);
    match ds.try_get_mut(1) {
        Some(v) => *v = 9,
        None => panic!("stored value not found"),
    }
    assert_eq!(ds.try_get(1), Some(&9));
}

#[test]
fn default_store_is_empty() {
    let ds: DomainState<u64> = DomainState::default();
    assert_eq!(ds.try_get(0), None);
}
