use church_encoding::map::{pm_empty, pm_update, tm_empty, tm_get, tm_update, PartialMap, TotalMap};

/// Fetch a map:
/// "bar" !-> true;
/// "foo" !-> true;
/// _     !-> false;
fn example_total_map() -> TotalMap<String, bool> {
    tm_update(
        tm_update(tm_empty(false), "foo".to_string(), true),
        "bar".to_string(),
        true,
    )
}

fn example_partial_map() -> PartialMap<String, bool> {
    pm_update(
        pm_update(pm_empty(), "Church".to_string(), true),
        "Turing".to_string(),
        false,
    )
}

#[test]
fn test_example_map_foo() {
    assert_eq!(tm_get(&example_total_map(), "foo".to_string()), true)
}

#[test]
fn test_example_map_bar() {
    assert_eq!(tm_get(&example_total_map(), "bar".to_string()), true)
}

#[test]
fn test_example_map_other() {
    assert_eq!(tm_get(&example_total_map(), "box".to_string()), false)
}

#[test]
fn test_example_map_church() {
    assert_eq!(tm_get(&example_partial_map(), "Church".to_string()), Some(true));
}

#[test]
fn test_example_map_turing() {
    assert_eq!(tm_get(&example_partial_map(), "Turing".to_string()), Some(false));
}

#[test]
fn map_test_example_map_other() {
    assert_eq!(tm_get(&example_partial_map(), "Other".to_string()), None)
}

#[test]
fn empty_total_map_yields_default_everywhere() {
    let m: TotalMap<u32, i64> = tm_empty(-7);
    assert_eq!(tm_get(&m, 0), -7);
    assert_eq!(tm_get(&m, 12345), -7);
}

#[test]
fn later_update_of_same_key_wins() {
    let m = tm_update(tm_update(tm_empty(0u8), 3u32, 1u8), 3u32, 2u8);
    assert_eq!(tm_get(&m, 3), 2);
    assert_eq!(tm_get(&m, 4), 0);
}

#[test]
fn partial_map_unbound_key_is_none() {
    let m: PartialMap<u32, bool> = pm_empty();
    assert_eq!(tm_get(&m, 9), None);
}
