use hyperx::cell::{OptCell, PtrMapCell};

#[test]
fn test_opt_cell_set() {
    let mut one: OptCell<u32> = OptCell::new(None);
    assert!(one.set(1).is_ok());
    assert_eq!(one.get(), Some(&1));
}

#[test]
fn test_opt_cell_clone() {
    let one: OptCell<u32> = OptCell::new(Some(3));
    let stored = one.clone();
    assert_eq!(stored.get(), Some(&3));
}

#[test]
fn test_ptr_map_cell_none() {
    let token: u64 = 1;
    let pm: PtrMapCell<u32> = PtrMapCell::new();
    assert!(pm.get(token).is_none());
}

#[test]
fn test_ptr_map_cell_one() {
    let token: u64 = 1;
    let mut pm: PtrMapCell<String> = PtrMapCell::new();
    assert!(pm.insert(token, "a".to_string()).is_ok());
    assert_eq!(pm.get(token), Some(&"a".to_string()));
    assert!(pm.is_one());
    assert_eq!(pm.one(), "a");
}

#[test]
fn test_ptr_map_cell_two() {
    let token: u64 = 1;
    let token2: u64 = 2;
    let mut pm: PtrMapCell<String> = PtrMapCell::new();
    assert!(pm.insert(token, "a".to_string()).is_ok());
    assert!(pm.insert(token2, "b".to_string()).is_ok());
    assert_eq!(pm.get(token), Some(&"a".to_string()));
    assert_eq!(pm.get(token2), Some(&"b".to_string()));
}

#[test]
fn test_ptr_map_cell_many() {
    let id1: u64 = 1;
    let id2: u64 = 2;
    let id3: u64 = 3;
    let mut pm: PtrMapCell<String> = PtrMapCell::new();
    assert!(pm.insert(id1, "a".to_string()).is_ok());
    assert!(pm.insert(id2, "b".to_string()).is_ok());
    assert!(pm.insert(id3, "c".to_string()).is_ok());
    assert_eq!(pm.get(id1), Some(&"a".to_string()));
    assert_eq!(pm.get(id2), Some(&"b".to_string()));
    assert_eq!(pm.get(id3), Some(&"c".to_string()));
}

#[test]
fn test_ptr_map_cell_clone() {
    let token: u64 = 1;
    let mut pm: PtrMapCell<String> = PtrMapCell::new();
    assert!(pm.insert(token, "a".to_string()).is_ok());
    let cloned = pm.clone();
    assert_eq!(cloned.get(token), Some(&"a".to_string()));
}

#[test]
fn test_opt_cell_write_once() {
    let mut cell: OptCell<u32> = OptCell::new(None);
    assert!(cell.get().is_none());
    assert!(cell.set(7).is_ok());
    assert_eq!(cell.get(), Some(&7));
    assert!(cell.set(8).is_err());
    assert_eq!(cell.get(), Some(&7));
}

#[test]
fn test_ptr_map_cell_transitions() {
    let mut pm: PtrMapCell<u32> = PtrMapCell::new();
    assert!(!pm.is_one());
    assert!(pm.insert(10, 100).is_ok());
    assert!(pm.is_one());
    assert!(pm.insert(20, 200).is_ok());
    assert!(!pm.is_one());
    assert_eq!(pm.get(10), Some(&100));
    assert_eq!(pm.get(20), Some(&200));
    assert!(pm.get(30).is_none());
}

#[test]
fn test_ptr_map_cell_duplicate_insert() {
    let mut pm: PtrMapCell<u32> = PtrMapCell::new();
    assert!(pm.insert(5, 50).is_ok());
    assert!(pm.insert(5, 51).is_err());
    assert_eq!(pm.get(5), Some(&50));
    assert!(pm.insert(6, 60).is_ok());
    assert!(pm.insert(6, 61).is_err());
    assert_eq!(pm.get(6), Some(&60));
}

#[test]
fn test_ptr_map_cell_with_one_into_value() {
    let pm: PtrMapCell<String> = PtrMapCell::with_one(9, "x".to_string());
    assert!(pm.is_one());
    assert_eq!(pm.into_value(9), Some("x".to_string()));
    let pm2: PtrMapCell<String> = PtrMapCell::with_one(9, "x".to_string());
    assert_eq!(pm2.into_value(8), None);
}

#[test]
fn test_get_mut() {
    let mut one: OptCell<u32> = OptCell::new(Some(4));
    *one.get_mut() = 5;
    assert_eq!(one.get(), Some(&5));

    let mut pm: PtrMapCell<String> = PtrMapCell::new();
    assert!(pm.insert(1, "a".to_string()).is_ok());
    assert!(pm.insert(2, "b".to_string()).is_ok());
    pm.get_mut(2).push_str("c");
    assert_eq!(pm.get(1), Some(&"a".to_string()));
    assert_eq!(pm.get(2), Some(&"bc".to_string()));
}
