use fasterdb::collection::{Collection, OperationError};

#[allow(unused_must_use)]
fn setup_db() -> Collection {
    let mut collection = Collection::new();
    collection.write(String::from("Hello123"));
    collection
}

#[test]
fn test_create_empty() {
    let collection = Collection::new();
    assert_eq!(collection.len(), 0);
    assert_eq!(collection.get_next_id(), 1);
}

#[test]
fn test_create_entry() {
    let mut collection = Collection::new();
    let num = collection.write(String::from("Hello123"));
    assert_eq!(num.unwrap(), 1);
    assert_eq!(collection.len(), 1);
    assert_eq!(collection.read(1).unwrap(), Some(&String::from("Hello123")));
    assert_eq!(collection.get_next_id(), 2);
}

#[test]
fn test_update_entry() {
    let mut collection = setup_db();
    let old_len = collection.len();
    let update_to = String::from("Hello95");
    let num_wrapper = collection.update(1, &update_to);

    assert!(num_wrapper.is_ok());
    if let Ok(num) = num_wrapper {
        assert_eq!(collection.len(), old_len);
        assert_eq!(collection.read(num).unwrap(), Some(&update_to));
    }
}

#[test]
fn test_delete_entry() {
    let mut collection = setup_db();
    let old_len = collection.len();

    let pre_del_result = collection.read(1);

    assert!(pre_del_result.is_ok());
    let pre_del_option = pre_del_result.unwrap();

    assert!(pre_del_option.is_some());
    let pre_del = pre_del_option.unwrap().clone();

    let deleted_string_result = collection.delete(1);

    assert!(deleted_string_result.is_ok());
    let deleted_string = deleted_string_result.unwrap();

    assert_eq!(collection.len(), old_len - 1);
    assert_eq!(pre_del, deleted_string);
}

#[test]
fn test_read_unexisting() {
    let collection = setup_db();

    let res = collection.read(12);
    assert!(res.is_ok()); // Note: missing entry is not an error

    let opt = res.unwrap();
    assert!(opt.is_none());
}

#[test]
fn test_delete_unexisting() {
    let mut collection = setup_db();

    let result = collection.delete(99);
    assert!(matches!(result, Err(OperationError::KeyMissing)))
}

#[test]
fn test_update_unexisting() {
    let mut collection = setup_db();

    let result = collection.update(99, &String::from("Yo yo yo"));
    assert!(matches!(result, Err(OperationError::KeyMissing)))
}
