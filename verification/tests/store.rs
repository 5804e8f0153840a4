use geotable::error::QueryError;
use geotable::store::LayerStore;
use geotable::table::parse_table;

const FIRST: &str = "lng;lat;name\n1;2;a\n";
const SECOND: &str = "lng;lat;name\n3;4;b\n5;6;c\n";

#[test]
fn new_store_is_empty() {
    let store = LayerStore::new();
    assert!(!store.contains("layer"));
    assert!(store.find("layer").is_none());
    assert_eq!(store.get("layer").unwrap_err(), QueryError::NotFound);
}

#[test]
fn put_then_get() {
    let mut store = LayerStore::new();
    store.put("one".to_string(), parse_table(FIRST).unwrap());
    assert!(store.contains("one"));
    assert_eq!(store.get("one").unwrap(), parse_table(FIRST).unwrap());
    assert_eq!(store.find("one"), Some(&parse_table(FIRST).unwrap()));
}

#[test]
fn put_keeps_other_layers() {
    let mut store = LayerStore::new();
    store.put("one".to_string(), parse_table(FIRST).unwrap());
    store.put("two".to_string(), parse_table(SECOND).unwrap());
    assert_eq!(store.get("one").unwrap(), parse_table(FIRST).unwrap());
    assert_eq!(store.get("two").unwrap(), parse_table(SECOND).unwrap());
}

#[test]
fn put_overwrites() {
    let mut store = LayerStore::new();
    store.put("one".to_string(), parse_table(FIRST).unwrap());
    store.put("one".to_string(), parse_table(SECOND).unwrap());
    assert_eq!(store.get("one").unwrap(), parse_table(SECOND).unwrap());
}

#[test]
fn get_of_absent_layer_is_not_found() {
    let mut store = LayerStore::new();
    store.put("one".to_string(), parse_table(FIRST).unwrap());
    assert_eq!(store.get("two").unwrap_err(), QueryError::NotFound);
    assert_eq!(store.get("").unwrap_err(), QueryError::NotFound);
    assert_eq!(store.get("One").unwrap_err(), QueryError::NotFound);
}

#[test]
fn delete_removes_the_layer_only() {
    let mut store = LayerStore::new();
    store.put("one".to_string(), parse_table(FIRST).unwrap());
    store.put("two".to_string(), parse_table(SECOND).unwrap());
    store.delete("one");
    assert!(!store.contains("one"));
    assert_eq!(store.get("two").unwrap(), parse_table(SECOND).unwrap());
}

#[test]
fn delete_twice_is_no_error() {
    let mut store = LayerStore::new();
    store.put("one".to_string(), parse_table(FIRST).unwrap());
    store.put("two".to_string(), parse_table(SECOND).unwrap());
    store.delete("one");
    store.delete("one");
    assert!(!store.contains("one"));
    assert!(store.contains("two"));
}

#[test]
fn delete_of_absent_layer_changes_nothing() {
    let mut store = LayerStore::new();
    store.delete("one");
    store.put("two".to_string(), parse_table(SECOND).unwrap());
    store.delete("one");
    assert_eq!(store.get("two").unwrap(), parse_table(SECOND).unwrap());
}

#[test]
fn get_hands_out_a_copy() {
    let mut store = LayerStore::new();
    store.put("one".to_string(), parse_table(FIRST).unwrap());
    let copy = store.get("one").unwrap();
    store.delete("one");
    assert_eq!(copy, parse_table(FIRST).unwrap());
}
