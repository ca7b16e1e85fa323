use ic_dev_kit_rs::candle::ModelManager;

#[test]
fn test_model_manager() {
    let mut manager: ModelManager<String> = ModelManager::new();

    manager.register("model1".to_string(), "data1".to_string());
    manager.register("model2".to_string(), "data2".to_string());

    assert_eq!(manager.list().len(), 2);
    assert_eq!(manager.active(), Some(&"data1".to_string()));
    assert_eq!(manager.active_name(), Some("model1"));

    manager.set_active("model2").unwrap();
    assert_eq!(manager.active(), Some(&"data2".to_string()));
    assert_eq!(manager.active_name(), Some("model2"));

    manager.remove("model1");
    assert_eq!(manager.list().len(), 1);
}

#[test]
fn test_model_manager_replace_and_get() {
    let mut manager: ModelManager<u32> = ModelManager::new();
    manager.register("a".to_string(), 1);
    manager.register("b".to_string(), 2);
    // Re-registering a name replaces the model without duplicating the name.
    manager.register("a".to_string(), 3);
    assert_eq!(manager.list(), vec!["a".to_string(), "b".to_string()]);
    assert_eq!(manager.get("a"), Some(&3));
    assert_eq!(manager.get("b"), Some(&2));
    assert_eq!(manager.get("c"), None);
}

#[test]
fn test_model_manager_set_active_missing() {
    let mut manager: ModelManager<u32> = ModelManager::new();
    manager.register("a".to_string(), 1);
    let err = manager.set_active("nope").unwrap_err();
    assert_eq!(err, "Model 'nope' not found");
    assert_eq!(manager.active_name(), Some("a"));
}

#[test]
fn test_model_manager_mutation() {
    let mut manager: ModelManager<Vec<u8>> = ModelManager::new();
    manager.register("m".to_string(), vec![1]);
    if let Some(v) = manager.get_mut("m") {
        v.push(2);
    }
    assert_eq!(manager.get("m"), Some(&vec![1, 2]));
    if let Some(v) = manager.active_mut() {
        v.push(3);
    }
    assert_eq!(manager.get("m"), Some(&vec![1, 2, 3]));
    assert_eq!(manager.get_mut("absent"), None);
}

#[test]
fn test_model_manager_remove_active() {
    let mut manager: ModelManager<u32> = ModelManager::new();
    manager.register("a".to_string(), 1);
    manager.register("b".to_string(), 2);
    assert_eq!(manager.active_name(), Some("a"));
    assert_eq!(manager.remove("a"), Some(1));
    // Removing the active model clears the active mark.
    assert_eq!(manager.active_name(), None);
    assert_eq!(manager.active(), None);
    assert_eq!(manager.remove("a"), None);
}
