use oxi::model_store::{request_name, ModelStore};

#[test]
fn create_and_list() {
    let mut store = ModelStore::new();
    store.create(request_name("m1", ""), "2024-01-01T00:00:00Z".into());
    let list = store.list();
    assert_eq!(list.len(), 1);
    assert_eq!(list[0].name, "m1");
}

#[test]
fn create_again_replaces() {
    let mut store = ModelStore::new();
    store.create("m".into(), "t1".into());
    store.create("other".into(), "t0".into());
    store.create("m".into(), "t2".into());
    assert_eq!(store.list().len(), 2);
    assert_eq!(store.get("m"), Some("t2".to_string()));
    assert_eq!(store.get("other"), Some("t0".to_string()));
}

#[test]
fn delete_forgets_the_model() {
    let mut store = ModelStore::new();
    store.create(request_name("m2", "ignored"), "t".into());
    store.delete(&request_name("", "m2"));
    assert_eq!(store.get("m2"), None);
    assert!(store.list().is_empty());
    store.delete("never-created");
    assert!(store.list().is_empty());
}

#[test]
fn request_name_prefers_model() {
    assert_eq!(request_name("a", "b"), "a");
    assert_eq!(request_name("", "b"), "b");
    assert_eq!(request_name("", ""), "");
}
