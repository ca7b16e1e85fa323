use ic_dev_kit_rs::storage::{
    delete, exists_key, load_bytes, save_bytes, size, MemoryRegistry, StorageRegistry,
};

#[test]
fn test_save_load_bytes() {
    let mut registry = MemoryRegistry::new();

    save_bytes(&mut registry, "test", vec![1, 2, 3]);
    let loaded = load_bytes(&registry, "test");

    assert_eq!(loaded, Some(vec![1, 2, 3]));
}

#[test]
fn test_exists() {
    let mut registry = MemoryRegistry::new();

    assert!(!exists_key(&registry, "test"));
    save_bytes(&mut registry, "test", vec![1, 2, 3]);
    assert!(exists_key(&registry, "test"));
}

#[test]
fn test_delete_and_size() {
    let mut registry = MemoryRegistry::new();
    assert!(!delete(&mut registry, "k"));
    save_bytes(&mut registry, "k", vec![9, 9, 9]);
    assert_eq!(size(&registry, "k"), Some(3));
    assert_eq!(size(&registry, "other"), None);
    assert!(delete(&mut registry, "k"));
    assert!(!exists_key(&registry, "k"));
    assert_eq!(load_bytes(&registry, "k"), None);
}

#[test]
fn test_overwrite_key() {
    let mut registry = MemoryRegistry::new();
    save_bytes(&mut registry, "k", vec![1]);
    save_bytes(&mut registry, "k", vec![2, 3]);
    assert_eq!(load_bytes(&registry, "k"), Some(vec![2, 3]));
    assert_eq!(size(&registry, "k"), Some(2));
}

#[test]
fn test_registry_trait_direct() {
    let mut registry = MemoryRegistry::new();
    registry.insert("a".to_string(), vec![1]);
    registry.insert("b".to_string(), vec![2]);
    assert_eq!(registry.get(&"a".to_string()), Some(vec![1]));
    assert_eq!(registry.remove(&"a".to_string()), Some(vec![1]));
    assert_eq!(registry.get(&"a".to_string()), None);
    assert_eq!(registry.get(&"b".to_string()), Some(vec![2]));
}
