use ewm_state_machine::git::loose::LooseStore;
use ewm_state_machine::git::object::{Object, ObjectId};
use ewm_state_machine::git::store::{MemoryStore, ObjectStore, StoreError};

#[test]
fn memory_store_roundtrip_and_delete() {
    let mut store = MemoryStore::default();
    let obj = Object::Blob(b"hello".to_vec());
    let id = obj.id();
    store.put(&id, &obj).unwrap();
    assert!(store.contains(&id));
    assert_eq!(store.get(&id).unwrap(), obj);
    store.delete(&id).unwrap();
    assert!(!store.contains(&id));
}

#[test]
fn loose_store_roundtrip_with_head() {
    let mut store = LooseStore::new("repo");
    let obj = Object::Blob(b"persisted".to_vec());
    let id = obj.id();
    store.put(&id, &obj).unwrap();
    store.write_head(&id).unwrap();

    let (path, bytes) = store.file(&id).unwrap();
    assert_eq!(path, format!("repo/objects/{}/{}", &id.as_str()[..2], &id.as_str()[2..]));
    let mut reload = LooseStore::new("repo");
    reload.load_file(id.as_str(), &bytes);
    reload.load_head(&format!("{}\n", id.as_str()));
    assert!(reload.contains(&id));
    assert_eq!(reload.get(&id).unwrap().id(), id);
    assert_eq!(reload.read_head(), Some(id));
}

#[test]
fn spoiled_files_are_no_objects() {
    let mut store = LooseStore::default();
    let id = ObjectId("ab12".to_string());
    store.load_file("ab12", b"no object");
    assert!(store.contains(&id));
    assert_eq!(store.ids(), vec![id.clone()]);
    assert_eq!(store.get(&id), Err(StoreError::Io("corrupt object".to_string())));
    assert_eq!(store.file(&id), None);

    // Written anew, the file holds an object.
    let obj = Object::Blob(b"whole".to_vec());
    store.put(&id, &obj).unwrap();
    assert_eq!(store.get(&id), Ok(obj));
    assert_eq!(store.len(), 1);

    store.load_file("ab12", b"");
    assert_eq!(store.get(&id), Err(StoreError::Io("corrupt object".to_string())));
    assert_eq!(store.delete(&id), Ok(()));
    assert_eq!(store.get(&id), Err(StoreError::NotFound(id.clone())));
    assert_eq!(store.delete(&id), Err(StoreError::NotFound(id)));
    assert!(store.is_empty());
}
